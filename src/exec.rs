use vstd::prelude::*;
use vstd::utf8::encode_utf8;

use crate::cmd::{texts_view, Command, CommandV};
use crate::decode::insert_pair;
use crate::frame::{
    frame_view, frames_view, lemma_pairs_view, pairs_view, BulkString, FrameV,
    RespArray, RespFrame, RespNull, SimpleString,
};
use crate::grammar::ins;
use crate::store::{field_value, fields_view, set_field, Backend};

verus! {

/// The fixed acknowledgment.
pub open spec fn ok_reply() -> FrameV {
    FrameV::Simple(seq![79u8, 75u8])
}

/// A text as a bulk string of its UTF-8 bytes.
pub open spec fn text_bulk(t: Seq<char>) -> FrameV {
    FrameV::Bulk(Some(encode_utf8(t)))
}

/// The fields of a hash keyed by the UTF-8 bytes of their names.
pub open spec fn keyed(fs: Seq<(Seq<char>, FrameV)>) -> Seq<(Seq<u8>, FrameV)> {
    Seq::new(fs.len(), |i: int| (encode_utf8(fs[i].0), fs[i].1))
}

/// The pairs in ascending key order, built by inserting them one by one.
pub open spec fn sort_pairs(m: Seq<(Seq<u8>, FrameV)>) -> Seq<(Seq<u8>, FrameV)>
    decreases m.len(),
{
    if m.len() == 0 {
        Seq::empty()
    } else {
        ins(sort_pairs(m.drop_last()), m.last().0, m.last().1)
    }
}

/// Each pair as its key, a bulk string, followed by its value.
pub open spec fn flatten(m: Seq<(Seq<u8>, FrameV)>) -> Seq<FrameV>
    decreases m.len(),
{
    if m.len() == 0 {
        Seq::empty()
    } else {
        flatten(m.drop_last()) + seq![FrameV::Bulk(Some(m.last().0)), m.last().1]
    }
}

/// The reply to reading all fields of a hash.
pub open spec fn hgetall_reply(
    hashes: Map<Seq<char>, Seq<(Seq<char>, FrameV)>>,
    key: Seq<char>,
    sort: bool,
) -> FrameV {
    if !hashes.contains_key(key) {
        FrameV::Array(Some(Seq::empty()))
    } else {
        let m = keyed(hashes[key]);
        FrameV::Array(Some(flatten(if sort { sort_pairs(m) } else { m })))
    }
}

/// The value of a field of a hash, or the null frame.
pub open spec fn hash_field(
    hashes: Map<Seq<char>, Seq<(Seq<char>, FrameV)>>,
    key: Seq<char>,
    field: Seq<char>,
) -> FrameV {
    if hashes.contains_key(key) && field_value(hashes[key], field) is Some {
        field_value(hashes[key], field)->Some_0
    } else {
        FrameV::Null
    }
}

/// The reply that a command gives against the store as it is before the command.
pub open spec fn reply(
    c: CommandV,
    strings: Map<Seq<char>, FrameV>,
    hashes: Map<Seq<char>, Seq<(Seq<char>, FrameV)>>,
    sets: Map<Seq<char>, Set<Seq<char>>>,
) -> FrameV {
    match c {
        CommandV::Get(k) => if strings.contains_key(k) {
            strings[k]
        } else {
            FrameV::Null
        },
        CommandV::SetValue(_, _) => ok_reply(),
        CommandV::HGet(k, f) => hash_field(hashes, k, f),
        CommandV::HSet(_, _, _) => ok_reply(),
        CommandV::HGetAll(k, sort) => hgetall_reply(hashes, k, sort),
        CommandV::HMGet(k, fs) => FrameV::Array(
            Some(Seq::new(fs.len(), |i: int| hash_field(hashes, k, fs[i]))),
        ),
        CommandV::Echo(m) => text_bulk(m),
        CommandV::SAdd(_, _) => FrameV::Integer(1),
        CommandV::SisMember(k, m) => FrameV::Integer(
            if sets.contains_key(k) && sets[k].contains(m) {
                1
            } else {
                0
            },
        ),
        CommandV::Unrecognized => ok_reply(),
    }
}

/// The string keyspace after a command.
pub open spec fn next_strings(c: CommandV, strings: Map<Seq<char>, FrameV>) -> Map<Seq<char>, FrameV> {
    match c {
        CommandV::SetValue(k, v) => strings.insert(k, v),
        _ => strings,
    }
}

/// The hash keyspace after a command.
pub open spec fn next_hashes(c: CommandV, hashes: Map<Seq<char>, Seq<(Seq<char>, FrameV)>>) -> Map<
    Seq<char>,
    Seq<(Seq<char>, FrameV)>,
> {
    match c {
        CommandV::HSet(k, f, v) => hashes.insert(
            k,
            set_field(
                if hashes.contains_key(k) {
                    hashes[k]
                } else {
                    Seq::empty()
                },
                f,
                v,
            ),
        ),
        _ => hashes,
    }
}

/// The set keyspace after a command.
pub open spec fn next_sets(c: CommandV, sets: Map<Seq<char>, Set<Seq<char>>>) -> Map<
    Seq<char>,
    Set<Seq<char>>,
> {
    match c {
        CommandV::SAdd(k, m) => sets.insert(
            k,
            if sets.contains_key(k) {
                sets[k]
            } else {
                Set::empty()
            }.insert(m),
        ),
        _ => sets,
    }
}

fn ok_frame() -> (r: RespFrame)
    ensures
        r@ == ok_reply(),
{
    let v: Vec<u8> = vec![79u8, 75u8];
    assert(v@ =~= seq![79u8, 75u8]);
    RespFrame::SimpleString(SimpleString(v))
}

/// A text as a bulk string frame.
fn text_frame(t: &String) -> (r: RespFrame)
    ensures
        r@ == text_bulk(t@),
{
    RespFrame::BulkString(BulkString(Some(vstd::slice::slice_to_vec(t.as_str().as_bytes()))))
}

fn or_null(f: Option<RespFrame>) -> (r: RespFrame)
    ensures
        r@ == match f {
            Some(x) => x@,
            None => FrameV::Null,
        },
{
    match f {
        Some(x) => x,
        None => RespFrame::Null(RespNull),
    }
}

/// The reply of a hash's fields: a key and a value for each, in insertion
/// order or in ascending key order.
fn fields_reply(fields: &Vec<(String, RespFrame)>, sort: bool) -> (r: RespFrame)
    ensures
        r@ == FrameV::Array(
            Some(
                flatten(
                    if sort {
                        sort_pairs(keyed(fields_view(fields@)))
                    } else {
                        keyed(fields_view(fields@))
                    },
                ),
            ),
        ),
{
    let ghost m = keyed(fields_view(fields@));
    let mut pairs: Vec<(Vec<u8>, RespFrame)> = Vec::new();
    let mut i: usize = 0;
    assert(m.subrange(0, 0) =~= Seq::<(Seq<u8>, FrameV)>::empty());
    assert(pairs_view(pairs@) =~= Seq::<(Seq<u8>, FrameV)>::empty());
    while i < fields.len()
        invariant
            i <= fields@.len(),
            m == keyed(fields_view(fields@)),
            pairs_view(pairs@) == if sort {
                sort_pairs(m.subrange(0, i as int))
            } else {
                m.subrange(0, i as int)
            },
        decreases fields.len() - i,
    {
        let k = vstd::slice::slice_to_vec(fields[i].0.as_str().as_bytes());
        let v = fields[i].1.copy();
        let ghost sub = m.subrange(0, i + 1);
        assert(sub.drop_last() =~= m.subrange(0, i as int));
        assert(sub.last() == (k@, frame_view(v)));
        if sort {
            insert_pair(&mut pairs, k, v);
        } else {
            let ghost before = pairs@;
            pairs.push((k, v));
            assert(pairs@.drop_last() =~= before);
            assert(pairs_view(pairs@) =~= sub);
        }
        i = i + 1;
    }
    assert(m.subrange(0, i as int) =~= m);
    let ghost pm = pairs_view(pairs@);
    proof {
        lemma_pairs_view(pairs@);
    }
    let mut out: Vec<RespFrame> = Vec::new();
    let mut j: usize = 0;
    assert(frames_view(out@) =~= Seq::<FrameV>::empty());
    assert(pm.subrange(0, 0) =~= Seq::<(Seq<u8>, FrameV)>::empty());
    while j < pairs.len()
        invariant
            j <= pairs@.len(),
            pm == pairs_view(pairs@),
            pm.len() == pairs@.len(),
            forall|x: int| 0 <= x < pairs@.len() ==> #[trigger] pm[x] == (pairs@[x].0@, frame_view(pairs@[x].1)),
            frames_view(out@) == flatten(pm.subrange(0, j as int)),
        decreases pairs.len() - j,
    {
        let kf = RespFrame::BulkString(BulkString(Some(vstd::slice::slice_to_vec(pairs[j].0.as_slice()))));
        let vf = pairs[j].1.copy();
        let ghost before = out@;
        let ghost sub = pm.subrange(0, j + 1);
        assert(sub.drop_last() =~= pm.subrange(0, j as int));
        let ghost kv = frame_view(kf);
        let ghost vv = frame_view(vf);
        assert(sub.last() == pm[j as int]);
        assert(kv == FrameV::Bulk(Some(sub.last().0)));
        assert(vv == sub.last().1);
        out.push(kf);
        let ghost mid = out@;
        assert(mid.drop_last() =~= before);
        assert(frames_view(mid) == frames_view(before).push(kv));
        out.push(vf);
        assert(out@.drop_last() =~= mid);
        assert(frames_view(out@) == frames_view(mid).push(vv));
        assert(frames_view(out@) =~= frames_view(before) + seq![kv, vv]);
        j = j + 1;
    }
    assert(pm.subrange(0, j as int) =~= pm);
    RespFrame::Array(RespArray(Some(out)))
}

impl Command {
    /// Runs the command against the store and gives its one reply.
    pub fn execute(self, backend: &mut Backend) -> (r: RespFrame)
        requires
            old(backend).wf(),
        ensures
            final(backend).wf(),
            r@ == reply(self.view(), old(backend).strings(), old(backend).hashes(), old(backend).sets()),
            final(backend).strings() == next_strings(self.view(), old(backend).strings()),
            final(backend).hashes() == next_hashes(self.view(), old(backend).hashes()),
            final(backend).sets() == next_sets(self.view(), old(backend).sets()),
    {
        match self {
            Command::Get(c) => or_null(backend.get(&c.key)),
            Command::SetValue(c) => {
                backend.set(c.key, c.value);
                ok_frame()
            },
            Command::HGet(c) => or_null(backend.hget(&c.key, &c.field)),
            Command::HSet(c) => {
                backend.hset(c.key, c.field, c.value);
                ok_frame()
            },
            Command::HGetAll(c) => match backend.hgetall(&c.key) {
                None => RespFrame::Array(RespArray(Some(Vec::new()))),
                Some(fields) => fields_reply(&fields, c.sort),
            },
            Command::HMGet(c) => {
                let mut out: Vec<RespFrame> = Vec::new();
                let mut i: usize = 0;
                let ghost fs = texts_view(c.fields@);
                while i < c.fields.len()
                    invariant
                        i <= c.fields@.len(),
                        fs == texts_view(c.fields@),
                        backend.wf(),
                        *backend == *old(backend),
                        frames_view(out@) == Seq::new(i as nat, |x: int| hash_field(backend.hashes(), c.key@, fs[x])),
                    decreases c.fields.len() - i,
                {
                    let f = or_null(backend.hget(&c.key, &c.fields[i]));
                    let ghost before = out@;
                    out.push(f);
                    assert(out@.drop_last() =~= before);
                    assert(frames_view(out@) =~= Seq::new((i + 1) as nat, |x: int| hash_field(backend.hashes(), c.key@, fs[x])));
                    i = i + 1;
                }
                RespFrame::Array(RespArray(Some(out)))
            },
            Command::Echo(c) => text_frame(&c.message),
            Command::SAdd(c) => {
                backend.sadd(c.key, c.member);
                RespFrame::Integer(1)
            },
            Command::SisMember(c) => {
                if backend.sismember(&c.key, &c.member) {
                    RespFrame::Integer(1)
                } else {
                    RespFrame::Integer(0)
                }
            },
            Command::Unrecognized(_) => ok_frame(),
        }
    }
}

} // verus!
