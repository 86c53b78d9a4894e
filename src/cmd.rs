use vstd::prelude::*;
use vstd::utf8::{decode_utf8, valid_utf8};

use crate::grammar::ascii_lowered;
use crate::lex::lower_matches;

use crate::frame::{frame_view, frames_view, lemma_frames_view, FrameV, RespArray, RespError, RespFrame};

verus! {

/// Why a command could not be built.
#[derive(Debug, PartialEq, Eq)]
pub enum CommandError {
    InvalidCommand(&'static str),
    InvalidArgument(&'static str),
    RespError(RespError),
    Utf8Error,
}

/// The kind of a command error, without its message.
pub enum ErrKind {
    Command,
    Argument,
    Frame,
    Utf8,
}

pub open spec fn kind_of(e: CommandError) -> ErrKind {
    match e {
        CommandError::InvalidCommand(_) => ErrKind::Command,
        CommandError::InvalidArgument(_) => ErrKind::Argument,
        CommandError::RespError(_) => ErrKind::Frame,
        CommandError::Utf8Error => ErrKind::Utf8,
    }
}

/// The abstract value of a command.
pub enum CommandV {
    Get(Seq<char>),
    SetValue(Seq<char>, FrameV),
    HGet(Seq<char>, Seq<char>),
    HSet(Seq<char>, Seq<char>, FrameV),
    HGetAll(Seq<char>, bool),
    HMGet(Seq<char>, Seq<Seq<char>>),
    Echo(Seq<char>),
    SAdd(Seq<char>, Seq<char>),
    SisMember(Seq<char>, Seq<char>),
    Unrecognized,
}

/// Reads a string key.
pub struct Get {
    pub key: String,
}

/// Writes a string key.
pub struct SetValue {
    pub key: String,
    pub value: RespFrame,
}

/// Reads one field of a hash.
pub struct HGet {
    pub key: String,
    pub field: String,
}

/// Writes one field of a hash.
pub struct HSet {
    pub key: String,
    pub field: String,
    pub value: RespFrame,
}

/// Reads all fields of a hash, in insertion order or sorted by name.
pub struct HGetAll {
    pub key: String,
    pub sort: bool,
}

/// Reads several fields of a hash.
pub struct HMGet {
    pub key: String,
    pub fields: Vec<String>,
}

/// Replies with its message.
pub struct Echo {
    pub message: String,
}

/// Adds a member to a set; the reply is always 1.
pub struct SAdd {
    pub key: String,
    pub member: String,
}

/// Tells whether a member is in a set.
pub struct SisMember {
    pub key: String,
    pub member: String,
}

/// A command whose name is not known; it is acknowledged.
pub struct Unrecognized;

/// One operation on the store.
pub enum Command {
    Get(Get),
    SetValue(SetValue),
    HGet(HGet),
    HSet(HSet),
    HGetAll(HGetAll),
    HMGet(HMGet),
    Echo(Echo),
    SAdd(SAdd),
    SisMember(SisMember),
    Unrecognized(Unrecognized),
}

pub open spec fn texts_view(v: Seq<String>) -> Seq<Seq<char>> {
    Seq::new(v.len(), |i: int| v[i]@)
}

impl Command {
    /// The abstract value of the command.
    pub open spec fn view(&self) -> CommandV {
        match self {
            Command::Get(c) => CommandV::Get(c.key@),
            Command::SetValue(c) => CommandV::SetValue(c.key@, c.value@),
            Command::HGet(c) => CommandV::HGet(c.key@, c.field@),
            Command::HSet(c) => CommandV::HSet(c.key@, c.field@, c.value@),
            Command::HGetAll(c) => CommandV::HGetAll(c.key@, c.sort),
            Command::HMGet(c) => CommandV::HMGet(c.key@, texts_view(c.fields@)),
            Command::Echo(c) => CommandV::Echo(c.message@),
            Command::SAdd(c) => CommandV::SAdd(c.key@, c.member@),
            Command::SisMember(c) => CommandV::SisMember(c.key@, c.member@),
            Command::Unrecognized(_) => CommandV::Unrecognized,
        }
    }
}

/// The frames of an array; the null array has none.
pub open spec fn items_of(a: RespArray) -> Seq<FrameV> {
    match a.0 {
        Some(v) => frames_view(v@),
        None => Seq::empty(),
    }
}

/// The frame is a non-null bulk string that spells `name`, in any case.
pub open spec fn is_name(f: FrameV, name: Seq<u8>) -> bool {
    match f {
        FrameV::Bulk(Some(b)) => ascii_lowered(b) == name,
        _ => false,
    }
}

/// The leading frames spell the names, one each.
pub open spec fn names_match(items: Seq<FrameV>, names: Seq<Seq<u8>>) -> bool {
    forall|i: int| 0 <= i < names.len() ==> is_name(#[trigger] items[i], names[i])
}

pub open spec fn names_view(names: Seq<&[u8]>) -> Seq<Seq<u8>> {
    Seq::new(names.len(), |i: int| names[i]@)
}

/// The outcome of checking a command array against its names and argument
/// count: `None` when it passes. `exact` asks for exactly `n_args`
/// arguments, otherwise at least that many.
pub open spec fn shape_error(items: Seq<FrameV>, names: Seq<Seq<u8>>, n_args: int, exact: bool) -> Option<
    ErrKind,
> {
    if (exact && items.len() != names.len() + n_args) || (!exact && items.len() < names.len()
        + n_args) {
        Some(ErrKind::Argument)
    } else if !names_match(items, names) {
        Some(ErrKind::Command)
    } else {
        None
    }
}

/// A text argument: a non-null bulk string of valid UTF-8.
pub open spec fn arg_text(f: FrameV) -> Result<Seq<char>, ErrKind> {
    match f {
        FrameV::Bulk(Some(b)) => if valid_utf8(b) {
            Ok(decode_utf8(b))
        } else {
            Err(ErrKind::Utf8)
        },
        _ => Err(ErrKind::Argument),
    }
}

/// Text arguments, read left to right; the first failure decides.
pub open spec fn arg_texts(fs: Seq<FrameV>) -> Result<Seq<Seq<char>>, ErrKind>
    decreases fs.len(),
{
    if fs.len() == 0 {
        Ok(Seq::empty())
    } else {
        match arg_texts(fs.drop_last()) {
            Err(e) => Err(e),
            Ok(ts) => match arg_text(fs.last()) {
                Err(e) => Err(e),
                Ok(t) => Ok(ts.push(t)),
            },
        }
    }
}

pub open spec fn name_get() -> Seq<u8> {
    seq![103u8, 101u8, 116u8]
}

pub open spec fn name_set() -> Seq<u8> {
    seq![115u8, 101u8, 116u8]
}

pub open spec fn name_hget() -> Seq<u8> {
    seq![104u8, 103u8, 101u8, 116u8]
}

pub open spec fn name_hset() -> Seq<u8> {
    seq![104u8, 115u8, 101u8, 116u8]
}

pub open spec fn name_hgetall() -> Seq<u8> {
    seq![104u8, 103u8, 101u8, 116u8, 97u8, 108u8, 108u8]
}

pub open spec fn name_hmget() -> Seq<u8> {
    seq![104u8, 109u8, 103u8, 101u8, 116u8]
}

pub open spec fn name_echo() -> Seq<u8> {
    seq![101u8, 99u8, 104u8, 111u8]
}

pub open spec fn name_sadd() -> Seq<u8> {
    seq![115u8, 97u8, 100u8, 100u8]
}

pub open spec fn name_sismember() -> Seq<u8> {
    seq![115u8, 105u8, 115u8, 109u8, 101u8, 109u8, 98u8, 101u8, 114u8]
}

/// A text argument followed by another.
pub open spec fn two_texts(a: FrameV, b: FrameV) -> Result<(Seq<char>, Seq<char>), ErrKind> {
    match arg_text(a) {
        Err(e) => Err(e),
        Ok(x) => match arg_text(b) {
            Err(e) => Err(e),
            Ok(y) => Ok((x, y)),
        },
    }
}

pub open spec fn get_spec(items: Seq<FrameV>) -> Result<CommandV, ErrKind> {
    match shape_error(items, seq![name_get()], 1, true) {
        Some(e) => Err(e),
        None => match arg_text(items[1]) {
            Err(e) => Err(e),
            Ok(k) => Ok(CommandV::Get(k)),
        },
    }
}

pub open spec fn set_spec(items: Seq<FrameV>) -> Result<CommandV, ErrKind> {
    match shape_error(items, seq![name_set()], 2, true) {
        Some(e) => Err(e),
        None => match arg_text(items[1]) {
            Err(e) => Err(e),
            Ok(k) => Ok(CommandV::SetValue(k, items[2])),
        },
    }
}

pub open spec fn hget_spec(items: Seq<FrameV>) -> Result<CommandV, ErrKind> {
    match shape_error(items, seq![name_hget()], 2, true) {
        Some(e) => Err(e),
        None => match two_texts(items[1], items[2]) {
            Err(e) => Err(e),
            Ok((k, f)) => Ok(CommandV::HGet(k, f)),
        },
    }
}

pub open spec fn hset_spec(items: Seq<FrameV>) -> Result<CommandV, ErrKind> {
    match shape_error(items, seq![name_hset()], 3, true) {
        Some(e) => Err(e),
        None => match two_texts(items[1], items[2]) {
            Err(e) => Err(e),
            Ok((k, f)) => Ok(CommandV::HSet(k, f, items[3])),
        },
    }
}

pub open spec fn hgetall_spec(items: Seq<FrameV>) -> Result<CommandV, ErrKind> {
    match shape_error(items, seq![name_hgetall()], 1, true) {
        Some(e) => Err(e),
        None => match arg_text(items[1]) {
            Err(e) => Err(e),
            Ok(k) => Ok(CommandV::HGetAll(k, false)),
        },
    }
}

pub open spec fn hmget_spec(items: Seq<FrameV>) -> Result<CommandV, ErrKind> {
    match shape_error(items, seq![name_hmget()], 2, false) {
        Some(e) => Err(e),
        None => match arg_text(items[1]) {
            Err(e) => Err(e),
            Ok(k) => match arg_texts(items.subrange(2, items.len() as int)) {
                Err(e) => Err(e),
                Ok(fs) => Ok(CommandV::HMGet(k, fs)),
            },
        },
    }
}

pub open spec fn echo_spec(items: Seq<FrameV>) -> Result<CommandV, ErrKind> {
    match shape_error(items, seq![name_echo()], 1, true) {
        Some(e) => Err(e),
        None => match arg_text(items[1]) {
            Err(e) => Err(e),
            Ok(m) => Ok(CommandV::Echo(m)),
        },
    }
}

pub open spec fn sadd_spec(items: Seq<FrameV>) -> Result<CommandV, ErrKind> {
    match shape_error(items, seq![name_sadd()], 2, true) {
        Some(e) => Err(e),
        None => match two_texts(items[1], items[2]) {
            Err(e) => Err(e),
            Ok((k, m)) => Ok(CommandV::SAdd(k, m)),
        },
    }
}

pub open spec fn sismember_spec(items: Seq<FrameV>) -> Result<CommandV, ErrKind> {
    match shape_error(items, seq![name_sismember()], 2, true) {
        Some(e) => Err(e),
        None => match two_texts(items[1], items[2]) {
            Err(e) => Err(e),
            Ok((k, m)) => Ok(CommandV::SisMember(k, m)),
        },
    }
}

/// The lower-cased name that a leading non-null bulk string spells.
pub open spec fn leading_name(items: Seq<FrameV>) -> Seq<u8> {
    match items[0] {
        FrameV::Bulk(Some(b)) => ascii_lowered(b),
        _ => Seq::empty(),
    }
}

/// The array is led by a non-null bulk string, which alone can name a command.
pub open spec fn led_by_name(items: Seq<FrameV>) -> bool {
    items.len() > 0 && items[0] is Bulk && items[0]->Bulk_0 is Some
}

/// The command that a frame array spells, or why there is none.
pub open spec fn command_spec(items: Seq<FrameV>) -> Result<CommandV, ErrKind> {
    if !led_by_name(items) {
        Err(ErrKind::Command)
    } else {
        let name = leading_name(items);
        if name == name_get() {
            get_spec(items)
        } else if name == name_set() {
            set_spec(items)
        } else if name == name_hget() {
            hget_spec(items)
        } else if name == name_hset() {
            hset_spec(items)
        } else if name == name_hgetall() {
            hgetall_spec(items)
        } else if name == name_hmget() {
            hmget_spec(items)
        } else if name == name_echo() {
            echo_spec(items)
        } else if name == name_sadd() {
            sadd_spec(items)
        } else if name == name_sismember() {
            sismember_spec(items)
        } else {
            Ok(CommandV::Unrecognized)
        }
    }
}

/// A command result seen through the views.
pub open spec fn outcome(r: Result<Command, CommandError>) -> Result<CommandV, ErrKind> {
    match r {
        Ok(c) => Ok(c.view()),
        Err(e) => Err(kind_of(e)),
    }
}

/// Relies on `String::from_utf8`: it accepts exactly the valid UTF-8 byte
/// strings, and the string holds the characters that they encode.
#[verifier::external_body]
fn utf8_string(b: Vec<u8>) -> (r: Option<String>)
    ensures
        r is Some <==> valid_utf8(b@),
        r is Some ==> r->Some_0@ == decode_utf8(b@),
{
    match String::from_utf8(b) {
        Ok(s) => Some(s),
        Err(_) => None,
    }
}

/// Reads a text argument.
pub(crate) fn text_arg(f: RespFrame) -> (r: Result<String, CommandError>)
    ensures
        match arg_text(f@) {
            Ok(t) => r is Ok && r->Ok_0@ == t,
            Err(e) => r is Err && kind_of(r->Err_0) == e,
        },
{
    match f {
        RespFrame::BulkString(b) => match b.0 {
            Some(data) => match utf8_string(data) {
                Some(s) => Ok(s),
                None => Err(CommandError::Utf8Error),
            },
            None => Err(CommandError::InvalidArgument("argument must not be the null bulk string")),
        },
        _ => Err(CommandError::InvalidArgument("argument must be a bulk string")),
    }
}

/// Compares a frame with a command name, ignoring ASCII case.
pub(crate) fn frame_is_name(f: &RespFrame, name: &[u8]) -> (r: bool)
    ensures
        r == is_name(f@, name@),
{
    match f {
        RespFrame::BulkString(b) => match &b.0 {
            Some(data) => {
                assert(data@.subrange(0, data@.len() as int) =~= data@);
                lower_matches(data.as_slice(), 0, name)
            },
            None => false,
        },
        _ => false,
    }
}

/// Checks that the leading frames spell the names.
pub fn validate_command_name(value: &RespArray, names: &[&[u8]]) -> (r: Result<(), CommandError>)
    requires
        items_of(*value).len() >= names@.len(),
    ensures
        r is Ok <==> names_match(items_of(*value), names_view(names@)),
        r is Err ==> kind_of(r->Err_0) == ErrKind::Command,
{
    let items = match &value.0 {
        Some(v) => v,
        None => {
            assert(names_match(items_of(*value), names_view(names@)));
            return Ok(());
        },
    };
    proof {
        lemma_frames_view(items@);
    }
    let mut i: usize = 0;
    while i < names.len()
        invariant
            value.0 == Some(*items),
            items@.len() >= names@.len(),
            i <= names@.len(),
            frames_view(items@).len() == items@.len(),
            forall|j: int| 0 <= j < items@.len() ==> #[trigger] frames_view(items@)[j] == frame_view(items@[j]),
            forall|j: int| 0 <= j < i ==> is_name(#[trigger] items_of(*value)[j], names_view(names@)[j]),
        decreases names.len() - i,
    {
        if !frame_is_name(&items[i], names[i]) {
            assert(!is_name(items_of(*value)[i as int], names_view(names@)[i as int]));
            return Err(CommandError::InvalidCommand("unexpected command name"));
        }
        i = i + 1;
    }
    Ok(())
}

/// Checks a command array: exactly `n_args` arguments after the names.
pub fn validate_command(value: &RespArray, names: &[&[u8]], n_args: usize) -> (r: Result<
    (),
    CommandError,
>)
    requires
        names@.len() + n_args <= usize::MAX,
    ensures
        match shape_error(items_of(*value), names_view(names@), n_args as int, true) {
            None => r is Ok,
            Some(e) => r is Err && kind_of(r->Err_0) == e,
        },
{
    proof {
        if let Some(v) = &value.0 {
            lemma_frames_view(v@);
        }
    }
    if value.len() != n_args + names.len() {
        return Err(CommandError::InvalidArgument("wrong number of arguments"));
    }
    validate_command_name(value, names)
}

/// Checks a command array: at least `n_args` arguments after the names.
pub fn validate_command_at_least(value: &RespArray, names: &[&[u8]], n_args: usize) -> (r: Result<
    (),
    CommandError,
>)
    requires
        names@.len() + n_args <= usize::MAX,
    ensures
        match shape_error(items_of(*value), names_view(names@), n_args as int, false) {
            None => r is Ok,
            Some(e) => r is Err && kind_of(r->Err_0) == e,
        },
{
    proof {
        if let Some(v) = &value.0 {
            lemma_frames_view(v@);
        }
    }
    if value.len() < n_args + names.len() {
        return Err(CommandError::InvalidArgument("too few arguments"));
    }
    validate_command_name(value, names)
}

/// The frames of the array from `start` on.
pub fn extract_args(value: RespArray, start: usize) -> (r: Result<Vec<RespFrame>, CommandError>)
    ensures
        match value.0 {
            None => r is Err && kind_of(r->Err_0) == ErrKind::Argument,
            Some(v) => r is Ok && frames_view(r->Ok_0@) == if start <= v@.len() {
                frames_view(v@).subrange(start as int, v@.len() as int)
            } else {
                Seq::empty()
            },
        },
{
    match value.0 {
        None => Err(CommandError::InvalidArgument("null array")),
        Some(mut items) => {
            let ghost all = items@;
            proof {
                lemma_frames_view(all);
            }
            if start >= items.len() {
                let out: Vec<RespFrame> = Vec::new();
                assert(frames_view(out@) =~= if start <= all.len() {
                    frames_view(all).subrange(start as int, all.len() as int)
                } else {
                    Seq::empty()
                });
                return Ok(out);
            }
            let rest = items.split_off(start);
            proof {
                lemma_frames_view(rest@);
                assert(rest@ =~= all.subrange(start as int, all.len() as int));
                assert(frames_view(rest@) =~= frames_view(all).subrange(start as int, all.len() as int));
            }
            Ok(rest)
        },
    }
}

} // verus!
