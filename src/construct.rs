use vstd::prelude::*;

use crate::cmd::{
    led_by_name,
    echo_spec, extract_args, frame_is_name, get_spec, hget_spec, hgetall_spec, hmget_spec,
    hset_spec, items_of, kind_of, leading_name, name_echo, name_get, name_hget,
    name_hgetall, name_hmget, name_hset, name_sadd, name_set, name_sismember, names_view,
    outcome, sadd_spec, set_spec, sismember_spec, text_arg, arg_text, arg_texts, texts_view,
    validate_command, validate_command_at_least, command_spec, Command, CommandError,
    CommandV, Echo, ErrKind, Get, HGet, HGetAll, HMGet, HSet, SAdd, SetValue, SisMember,
    Unrecognized,
};
use crate::frame::{frames_view, lemma_frames_view, FrameV, RespArray, RespFrame};

verus! {

/// The frames after the first `start`, once the array is known to hold that many.
fn take_args(value: RespArray, start: usize) -> (r: Vec<RespFrame>)
    requires
        1 <= start <= items_of(value).len(),
    ensures
        frames_view(r@) == items_of(value).subrange(start as int, items_of(value).len() as int),
        r@.len() == items_of(value).len() - start,
{
    let ghost items = items_of(value);
    proof {
        if let Some(v) = &value.0 {
            lemma_frames_view(v@);
        }
    }
    match extract_args(value, start) {
        Ok(v) => {
            proof {
                lemma_frames_view(v@);
            }
            v
        },
        Err(_) => {
            assert(false);
            Vec::new()
        },
    }
}

/// Removes and returns the first frame.
fn take_first(v: &mut Vec<RespFrame>) -> (r: RespFrame)
    requires
        old(v)@.len() > 0,
    ensures
        r@ == frames_view(old(v)@)[0],
        frames_view(final(v)@) == frames_view(old(v)@).drop_first(),
        final(v)@.len() == old(v)@.len() - 1,
{
    proof {
        lemma_frames_view(v@);
    }
    let ghost before = frames_view(v@);
    let r = v.remove(0);
    proof {
        lemma_frames_view(v@);
        assert(frames_view(v@) =~= before.drop_first());
    }
    r
}

impl Get {
    /// Builds `get <key>` from its frame array.
    pub fn try_from(value: RespArray) -> (r: Result<Get, CommandError>)
        ensures
            match r {
                Ok(c) => get_spec(items_of(value)) == Ok::<CommandV, ErrKind>(CommandV::Get(c.key@)),
                Err(e) => get_spec(items_of(value)) == Err::<CommandV, ErrKind>(kind_of(e)),
            },
    {
        let name: [u8; 3] = [103, 101, 116];
        let names: [&[u8]; 1] = [&name];
        assert(names_view(names@) =~= seq![name_get()]);
        match validate_command(&value, &names, 1) {
            Err(e) => return Err(e),
            Ok(()) => {},
        }
        let mut args = take_args(value, 1);
        let key = match text_arg(take_first(&mut args)) {
            Ok(k) => k,
            Err(e) => return Err(e),
        };
        Ok(Get { key })
    }
}

impl SetValue {
    /// Builds `set <key> <value>` from its frame array; the value is kept as a frame.
    pub fn try_from(value: RespArray) -> (r: Result<SetValue, CommandError>)
        ensures
            match r {
                Ok(c) => set_spec(items_of(value)) == Ok::<CommandV, ErrKind>(CommandV::SetValue(c.key@, c.value@)),
                Err(e) => set_spec(items_of(value)) == Err::<CommandV, ErrKind>(kind_of(e)),
            },
    {
        let name: [u8; 3] = [115, 101, 116];
        let names: [&[u8]; 1] = [&name];
        assert(names_view(names@) =~= seq![name_set()]);
        match validate_command(&value, &names, 2) {
            Err(e) => return Err(e),
            Ok(()) => {},
        }
        let mut args = take_args(value, 1);
        let key = match text_arg(take_first(&mut args)) {
            Ok(k) => k,
            Err(e) => return Err(e),
        };
        let value = take_first(&mut args);
        Ok(SetValue { key, value })
    }
}

impl HGet {
    /// Builds `hget <key> <field>` from its frame array.
    pub fn try_from(value: RespArray) -> (r: Result<HGet, CommandError>)
        ensures
            match r {
                Ok(c) => hget_spec(items_of(value)) == Ok::<CommandV, ErrKind>(CommandV::HGet(c.key@, c.field@)),
                Err(e) => hget_spec(items_of(value)) == Err::<CommandV, ErrKind>(kind_of(e)),
            },
    {
        let name: [u8; 4] = [104, 103, 101, 116];
        let names: [&[u8]; 1] = [&name];
        assert(names_view(names@) =~= seq![name_hget()]);
        match validate_command(&value, &names, 2) {
            Err(e) => return Err(e),
            Ok(()) => {},
        }
        let mut args = take_args(value, 1);
        let a = take_first(&mut args);
        let key = match text_arg(a) {
            Ok(k) => k,
            Err(e) => return Err(e),
        };
        let second = match text_arg(take_first(&mut args)) {
            Ok(t) => t,
            Err(e) => return Err(e),
        };
        Ok(HGet { key, field: second })
    }
}

impl HSet {
    /// Builds `hset <key> <field> <value>` from its frame array; the value is kept as a frame.
    pub fn try_from(value: RespArray) -> (r: Result<HSet, CommandError>)
        ensures
            match r {
                Ok(c) => hset_spec(items_of(value)) == Ok::<CommandV, ErrKind>(CommandV::HSet(c.key@, c.field@, c.value@)),
                Err(e) => hset_spec(items_of(value)) == Err::<CommandV, ErrKind>(kind_of(e)),
            },
    {
        let name: [u8; 4] = [104, 115, 101, 116];
        let names: [&[u8]; 1] = [&name];
        assert(names_view(names@) =~= seq![name_hset()]);
        match validate_command(&value, &names, 3) {
            Err(e) => return Err(e),
            Ok(()) => {},
        }
        let mut args = take_args(value, 1);
        let a = take_first(&mut args);
        let key = match text_arg(a) {
            Ok(k) => k,
            Err(e) => return Err(e),
        };
        let second = match text_arg(take_first(&mut args)) {
            Ok(t) => t,
            Err(e) => return Err(e),
        };
        let value = take_first(&mut args);
        Ok(HSet { key, field: second, value })
    }
}

impl HGetAll {
    /// Builds `hgetall <key>` from its frame array, without sorting.
    pub fn try_from(value: RespArray) -> (r: Result<HGetAll, CommandError>)
        ensures
            match r {
                Ok(c) => hgetall_spec(items_of(value)) == Ok::<CommandV, ErrKind>(CommandV::HGetAll(c.key@, c.sort)),
                Err(e) => hgetall_spec(items_of(value)) == Err::<CommandV, ErrKind>(kind_of(e)),
            },
    {
        let name: [u8; 7] = [104, 103, 101, 116, 97, 108, 108];
        let names: [&[u8]; 1] = [&name];
        assert(names_view(names@) =~= seq![name_hgetall()]);
        match validate_command(&value, &names, 1) {
            Err(e) => return Err(e),
            Ok(()) => {},
        }
        let mut args = take_args(value, 1);
        let key = match text_arg(take_first(&mut args)) {
            Ok(k) => k,
            Err(e) => return Err(e),
        };
        Ok(HGetAll { key, sort: false })
    }
}

impl Echo {
    /// Builds `echo <message>` from its frame array.
    pub fn try_from(value: RespArray) -> (r: Result<Echo, CommandError>)
        ensures
            match r {
                Ok(c) => echo_spec(items_of(value)) == Ok::<CommandV, ErrKind>(CommandV::Echo(c.message@)),
                Err(e) => echo_spec(items_of(value)) == Err::<CommandV, ErrKind>(kind_of(e)),
            },
    {
        let name: [u8; 4] = [101, 99, 104, 111];
        let names: [&[u8]; 1] = [&name];
        assert(names_view(names@) =~= seq![name_echo()]);
        match validate_command(&value, &names, 1) {
            Err(e) => return Err(e),
            Ok(()) => {},
        }
        let mut args = take_args(value, 1);
        let message = match text_arg(take_first(&mut args)) {
            Ok(k) => k,
            Err(e) => return Err(e),
        };
        Ok(Echo { message })
    }
}

impl SAdd {
    /// Builds `sadd <key> <member>` from its frame array.
    pub fn try_from(value: RespArray) -> (r: Result<SAdd, CommandError>)
        ensures
            match r {
                Ok(c) => sadd_spec(items_of(value)) == Ok::<CommandV, ErrKind>(CommandV::SAdd(c.key@, c.member@)),
                Err(e) => sadd_spec(items_of(value)) == Err::<CommandV, ErrKind>(kind_of(e)),
            },
    {
        let name: [u8; 4] = [115, 97, 100, 100];
        let names: [&[u8]; 1] = [&name];
        assert(names_view(names@) =~= seq![name_sadd()]);
        match validate_command(&value, &names, 2) {
            Err(e) => return Err(e),
            Ok(()) => {},
        }
        let mut args = take_args(value, 1);
        let a = take_first(&mut args);
        let key = match text_arg(a) {
            Ok(k) => k,
            Err(e) => return Err(e),
        };
        let second = match text_arg(take_first(&mut args)) {
            Ok(t) => t,
            Err(e) => return Err(e),
        };
        Ok(SAdd { key, member: second })
    }
}

impl SisMember {
    /// Builds `sismember <key> <member>` from its frame array.
    pub fn try_from(value: RespArray) -> (r: Result<SisMember, CommandError>)
        ensures
            match r {
                Ok(c) => sismember_spec(items_of(value)) == Ok::<CommandV, ErrKind>(CommandV::SisMember(c.key@, c.member@)),
                Err(e) => sismember_spec(items_of(value)) == Err::<CommandV, ErrKind>(kind_of(e)),
            },
    {
        let name: [u8; 9] = [115, 105, 115, 109, 101, 109, 98, 101, 114];
        let names: [&[u8]; 1] = [&name];
        assert(names_view(names@) =~= seq![name_sismember()]);
        match validate_command(&value, &names, 2) {
            Err(e) => return Err(e),
            Ok(()) => {},
        }
        let mut args = take_args(value, 1);
        let a = take_first(&mut args);
        let key = match text_arg(a) {
            Ok(k) => k,
            Err(e) => return Err(e),
        };
        let second = match text_arg(take_first(&mut args)) {
            Ok(t) => t,
            Err(e) => return Err(e),
        };
        Ok(SisMember { key, member: second })
    }
}

proof fn lemma_arg_texts_err(fs: Seq<FrameV>, j: int)
    requires
        0 <= j <= fs.len(),
        arg_texts(fs.subrange(0, j)) is Err,
    ensures
        arg_texts(fs) == arg_texts(fs.subrange(0, j)),
    decreases fs.len() - j,
{
    if j == fs.len() {
        assert(fs.subrange(0, j) =~= fs);
    } else {
        assert(fs.subrange(0, j + 1).drop_last() =~= fs.subrange(0, j));
        lemma_arg_texts_err(fs, j + 1);
    }
}

impl HMGet {
    /// Builds `hmget <key> <field>...` from its frame array; at least one field.
    pub fn try_from(value: RespArray) -> (r: Result<HMGet, CommandError>)
        ensures
            match r {
                Ok(c) => hmget_spec(items_of(value)) == Ok::<CommandV, ErrKind>(
                    CommandV::HMGet(c.key@, texts_view(c.fields@)),
                ),
                Err(e) => hmget_spec(items_of(value)) == Err::<CommandV, ErrKind>(kind_of(e)),
            },
    {
        let name: [u8; 5] = [104, 109, 103, 101, 116];
        let names: [&[u8]; 1] = [&name];
        assert(names_view(names@) =~= seq![name_hmget()]);
        match validate_command_at_least(&value, &names, 2) {
            Err(e) => return Err(e),
            Ok(()) => {},
        }
        let ghost items = items_of(value);
        let mut args = take_args(value, 1);
        let key = match text_arg(take_first(&mut args)) {
            Ok(k) => k,
            Err(e) => return Err(e),
        };
        let ghost rest = items.subrange(2, items.len() as int);
        assert(frames_view(args@) =~= rest);
        let mut fields: Vec<String> = Vec::new();
        let n = args.len();
        let mut i: usize = 0;
        assert(rest.subrange(0, 0) =~= Seq::<FrameV>::empty());
        assert(texts_view(fields@) =~= Seq::<Seq<char>>::empty());
        while i < n
            invariant
                items == items_of(value),
                n == rest.len(),
                i <= n,
                args@.len() == n - i,
                frames_view(args@) == rest.subrange(i as int, n as int),
                arg_texts(rest.subrange(0, i as int)) == Ok::<Seq<Seq<char>>, ErrKind>(texts_view(fields@)),
                hmget_spec(items) == match arg_text(items[1]) {
                    Err(e) => Err(e),
                    Ok(k) => match arg_texts(rest) {
                        Err(e) => Err(e),
                        Ok(fs) => Ok(CommandV::HMGet(k, fs)),
                    },
                },
                arg_text(items[1]) == Ok::<Seq<char>, ErrKind>(key@),
            decreases n - i,
        {
            let f = take_first(&mut args);
            assert(rest.subrange(0, i + 1).drop_last() =~= rest.subrange(0, i as int));
            assert(f@ == rest[i as int]);
            match text_arg(f) {
                Ok(t) => {
                    let ghost before = fields@;
                    fields.push(t);
                    assert(texts_view(fields@) =~= texts_view(before).push(t@));
                },
                Err(e) => {
                    proof {
                        assert(rest.subrange(0, i + 1).last() == rest[i as int]);
                        assert(arg_texts(rest.subrange(0, i + 1)) == Err::<Seq<Seq<char>>, ErrKind>(kind_of(e)));
                        lemma_arg_texts_err(rest, i + 1);
                        assert(arg_texts(rest) == Err::<Seq<Seq<char>>, ErrKind>(kind_of(e)));
                        assert(hmget_spec(items) == Err::<CommandV, ErrKind>(kind_of(e)));
                    }
                    return Err(e);
                },
            }
            assert(frames_view(args@) =~= rest.subrange(i + 1, n as int));
            i = i + 1;
        }
        assert(rest.subrange(0, n as int) =~= rest);
        Ok(HMGet { key, fields })
    }
}

impl Command {
    /// Builds the command that a frame array spells. An array whose first
    /// frame is not a non-null bulk string is an invalid command; a name that no
    /// command has gives the unrecognized command.
    pub fn try_from(v: RespArray) -> (r: Result<Command, CommandError>)
        ensures
            outcome(r) == command_spec(items_of(v)),
    {
        let which: u8 = match &v.0 {
            None => 0,
            Some(items) => {
                proof {
                    lemma_frames_view(items@);
                }
                if items.len() == 0 {
                    0
                } else {
                    match &items[0] {
                        RespFrame::BulkString(b) if b.0.is_some() => {
                            let f = &items[0];
                            let n_get: [u8; 3] = [103, 101, 116];
                            let n_set: [u8; 3] = [115, 101, 116];
                            let n_hget: [u8; 4] = [104, 103, 101, 116];
                            let n_hset: [u8; 4] = [104, 115, 101, 116];
                            let n_hgetall: [u8; 7] = [104, 103, 101, 116, 97, 108, 108];
                            let n_hmget: [u8; 5] = [104, 109, 103, 101, 116];
                            let n_echo: [u8; 4] = [101, 99, 104, 111];
                            let n_sadd: [u8; 4] = [115, 97, 100, 100];
                            let n_sismember: [u8; 9] = [115, 105, 115, 109, 101, 109, 98, 101, 114];
                            assert(n_get@ =~= name_get());
                            assert(n_set@ =~= name_set());
                            assert(n_hget@ =~= name_hget());
                            assert(n_hset@ =~= name_hset());
                            assert(n_hgetall@ =~= name_hgetall());
                            assert(n_hmget@ =~= name_hmget());
                            assert(n_echo@ =~= name_echo());
                            assert(n_sadd@ =~= name_sadd());
                            assert(n_sismember@ =~= name_sismember());
                            if frame_is_name(f, &n_get) {
                                1
                            } else if frame_is_name(f, &n_set) {
                                2
                            } else if frame_is_name(f, &n_hget) {
                                3
                            } else if frame_is_name(f, &n_hset) {
                                4
                            } else if frame_is_name(f, &n_hgetall) {
                                5
                            } else if frame_is_name(f, &n_hmget) {
                                6
                            } else if frame_is_name(f, &n_echo) {
                                7
                            } else if frame_is_name(f, &n_sadd) {
                                8
                            } else if frame_is_name(f, &n_sismember) {
                                9
                            } else {
                                10
                            }
                        },
                        _ => 0,
                    }
                }
            },
        };
        let ghost items = items_of(v);
        let ghost name = leading_name(items);
        assert(which == 0 <==> !led_by_name(items));
        assert(which == 1 ==> name == name_get());
        assert(which == 2 ==> name == name_set() && name != name_get());
        assert(which == 10 ==> led_by_name(items) && name != name_get() && name
            != name_set() && name != name_hget() && name != name_hset() && name != name_hgetall()
            && name != name_hmget() && name != name_echo() && name != name_sadd() && name
            != name_sismember());
        if which == 0 {
            Err(CommandError::InvalidCommand("a command is an array led by a non-null bulk string"))
        } else if which == 1 {
            match Get::try_from(v) {
                Ok(c) => Ok(Command::Get(c)),
                Err(e) => Err(e),
            }
        } else if which == 2 {
            match SetValue::try_from(v) {
                Ok(c) => Ok(Command::SetValue(c)),
                Err(e) => Err(e),
            }
        } else if which == 3 {
            match HGet::try_from(v) {
                Ok(c) => Ok(Command::HGet(c)),
                Err(e) => Err(e),
            }
        } else if which == 4 {
            match HSet::try_from(v) {
                Ok(c) => Ok(Command::HSet(c)),
                Err(e) => Err(e),
            }
        } else if which == 5 {
            match HGetAll::try_from(v) {
                Ok(c) => Ok(Command::HGetAll(c)),
                Err(e) => Err(e),
            }
        } else if which == 6 {
            match HMGet::try_from(v) {
                Ok(c) => Ok(Command::HMGet(c)),
                Err(e) => Err(e),
            }
        } else if which == 7 {
            match Echo::try_from(v) {
                Ok(c) => Ok(Command::Echo(c)),
                Err(e) => Err(e),
            }
        } else if which == 8 {
            match SAdd::try_from(v) {
                Ok(c) => Ok(Command::SAdd(c)),
                Err(e) => Err(e),
            }
        } else if which == 9 {
            match SisMember::try_from(v) {
                Ok(c) => Ok(Command::SisMember(c)),
                Err(e) => Err(e),
            }
        } else {
            Ok(Command::Unrecognized(Unrecognized))
        }
    }

    /// Builds the command that a frame spells; only an array can spell one.
    pub fn try_from_frame(f: RespFrame) -> (r: Result<Command, CommandError>)
        ensures
            match f@ {
                FrameV::Array(Some(items)) => outcome(r) == command_spec(items),
                _ => r is Err && kind_of(r->Err_0) == ErrKind::Command,
            },
    {
        match f {
            RespFrame::Array(a) => {
                if a.0.is_none() {
                    return Err(CommandError::InvalidCommand("a command is an array"));
                }
                Command::try_from(a)
            },
            _ => Err(CommandError::InvalidCommand("a command is an array")),
        }
    }
}

} // verus!
