use vstd::prelude::*;
use vstd::hash_map::StringHashMap;

use crate::frame::{frame_view, FrameV, RespFrame};

verus! {

/// The fields of a hash, in insertion order, seen through their views.
pub open spec fn fields_view(v: Seq<(String, RespFrame)>) -> Seq<(Seq<char>, FrameV)> {
    Seq::new(v.len(), |i: int| (v[i].0@, frame_view(v[i].1)))
}

/// No field appears twice.
pub open spec fn unique_fields(fs: Seq<(Seq<char>, FrameV)>) -> bool {
    forall|i: int, j: int| 0 <= i < j < fs.len() ==> (#[trigger] fs[i]).0 != (#[trigger] fs[j]).0
}

/// The value of a field of a hash, if it is there.
pub open spec fn field_value(fs: Seq<(Seq<char>, FrameV)>, f: Seq<char>) -> Option<FrameV> {
    if exists|i: int| 0 <= i < fs.len() && fs[i].0 == f {
        Some(fs[choose|i: int| 0 <= i < fs.len() && fs[i].0 == f].1)
    } else {
        None
    }
}

/// A hash after a field is written: an existing field keeps its place and
/// takes the new value, a new field goes at the end.
pub open spec fn set_field(fs: Seq<(Seq<char>, FrameV)>, f: Seq<char>, v: FrameV) -> Seq<
    (Seq<char>, FrameV),
> {
    if exists|i: int| 0 <= i < fs.len() && fs[i].0 == f {
        fs.update(choose|i: int| 0 <= i < fs.len() && fs[i].0 == f, (f, v))
    } else {
        fs.push((f, v))
    }
}

/// The members of a set.
pub open spec fn members_view(v: Seq<String>) -> Set<Seq<char>> {
    Set::new(|m: Seq<char>| exists|i: int| 0 <= i < v.len() && v[i]@ == m)
}

/// The store: three keyspaces, for strings, hashes and sets, each keyed by
/// text. The keyspaces are independent: one key may name a string, a hash
/// and a set at once.
pub struct Backend {
    map: StringHashMap<RespFrame>,
    hmap: StringHashMap<Vec<(String, RespFrame)>>,
    set: StringHashMap<Vec<String>>,
}

impl Backend {
    /// The string keyspace.
    pub closed spec fn strings(&self) -> Map<Seq<char>, FrameV> {
        self.map@.map_values(|f: RespFrame| frame_view(f))
    }

    /// The hash keyspace: each hash as its fields in insertion order.
    pub closed spec fn hashes(&self) -> Map<Seq<char>, Seq<(Seq<char>, FrameV)>> {
        self.hmap@.map_values(|v: Vec<(String, RespFrame)>| fields_view(v@))
    }

    /// The set keyspace.
    pub closed spec fn sets(&self) -> Map<Seq<char>, Set<Seq<char>>> {
        self.set@.map_values(|v: Vec<String>| members_view(v@))
    }

    /// Every hash holds each field once.
    pub closed spec fn wf(&self) -> bool {
        forall|k: Seq<char>| #[trigger] self.hmap@.contains_key(k) ==> unique_fields(
            fields_view(self.hmap@[k]@),
        )
    }

    pub fn new() -> (r: Backend)
        ensures
            r.wf(),
            r.strings() == Map::<Seq<char>, FrameV>::empty(),
            r.hashes() == Map::<Seq<char>, Seq<(Seq<char>, FrameV)>>::empty(),
            r.sets() == Map::<Seq<char>, Set<Seq<char>>>::empty(),
    {
        let r = Backend { map: StringHashMap::new(), hmap: StringHashMap::new(), set: StringHashMap::new() };
        assert(r.strings() =~= Map::<Seq<char>, FrameV>::empty());
        assert(r.hashes() =~= Map::<Seq<char>, Seq<(Seq<char>, FrameV)>>::empty());
        assert(r.sets() =~= Map::<Seq<char>, Set<Seq<char>>>::empty());
        r
    }

    /// The value stored under `key` in the string keyspace.
    pub fn get(&self, key: &String) -> (r: Option<RespFrame>)
        ensures
            match r {
                Some(f) => self.strings().contains_key(key@) && f@ == self.strings()[key@],
                None => !self.strings().contains_key(key@),
            },
    {
        match self.map.get(key.as_str()) {
            Some(f) => Some(f.copy()),
            None => None,
        }
    }

    /// Stores `value` under `key` in the string keyspace.
    pub fn set(&mut self, key: String, value: RespFrame)
        requires
            old(self).wf(),
        ensures
            final(self).wf(),
            final(self).strings() == old(self).strings().insert(key@, value@),
            final(self).hashes() == old(self).hashes(),
            final(self).sets() == old(self).sets(),
    {
        let ghost k = key@;
        let ghost v = value@;
        self.map.insert(key, value);
        assert(self.strings() =~= old(self).strings().insert(k, v));
    }

    /// The fields of the hash under `key`, in insertion order.
    pub fn hgetall(&self, key: &String) -> (r: Option<Vec<(String, RespFrame)>>)
        ensures
            match r {
                Some(v) => self.hashes().contains_key(key@) && fields_view(v@) == self.hashes()[key@],
                None => !self.hashes().contains_key(key@),
            },
    {
        match self.hmap.get(key.as_str()) {
            Some(v) => Some(copy_fields(v)),
            None => None,
        }
    }

    /// The value of `field` in the hash under `key`.
    pub fn hget(&self, key: &String, field: &String) -> (r: Option<RespFrame>)
        requires
            self.wf(),
        ensures
            match r {
                Some(f) => self.hashes().contains_key(key@) && field_value(
                    self.hashes()[key@],
                    field@,
                ) == Some(f@),
                None => !self.hashes().contains_key(key@) || field_value(
                    self.hashes()[key@],
                    field@,
                ) is None,
            },
    {
        match self.hmap.get(key.as_str()) {
            Some(v) => {
                assert(self.hashes()[key@] == fields_view(v@));
                match find_field(v, field) {
                    Some(i) => Some(v[i].1.copy()),
                    None => None,
                }
            },
            None => None,
        }
    }

    /// Writes `field` of the hash under `key`, making the hash where there is none.
    pub fn hset(&mut self, key: String, field: String, value: RespFrame)
        requires
            old(self).wf(),
        ensures
            final(self).wf(),
            final(self).hashes() == old(self).hashes().insert(
                key@,
                set_field(
                    if old(self).hashes().contains_key(key@) {
                        old(self).hashes()[key@]
                    } else {
                        Seq::empty()
                    },
                    field@,
                    value@,
                ),
            ),
            final(self).strings() == old(self).strings(),
            final(self).sets() == old(self).sets(),
    {
        let ghost k = key@;
        let mut fields: Vec<(String, RespFrame)> = match self.hmap.get(key.as_str()) {
            Some(v) => copy_fields(v),
            None => Vec::new(),
        };
        let ghost before = fields_view(fields@);
        assert(before == if old(self).hashes().contains_key(k) {
            old(self).hashes()[k]
        } else {
            Seq::empty()
        }) by {
            if !old(self).hashes().contains_key(k) {
                assert(before =~= Seq::<(Seq<char>, FrameV)>::empty());
            }
        }
        assert(unique_fields(before));
        let ghost fv = (field@, value@);
        match find_field(&fields, &field) {
            Some(i) => {
                fields.set(i, (field, value));
                let ghost after = fields_view(fields@);
                assert(after =~= before.update(i as int, fv));
                assert forall|a: int, b: int| 0 <= a < b < after.len() implies (#[trigger] after[a]).0
                    != (#[trigger] after[b]).0 by {
                    assert(after[a].0 == before[a].0);
                    assert(after[b].0 == before[b].0);
                    assert(before[a].0 != before[b].0);
                }
            },
            None => {
                fields.push((field, value));
                let ghost after = fields_view(fields@);
                assert(after =~= before.push(fv));
                assert forall|a: int, b: int| 0 <= a < b < after.len() implies (#[trigger] after[a]).0
                    != (#[trigger] after[b]).0 by {
                    if b == before.len() {
                        assert(!(0 <= a < before.len() && before[a].0 == field@));
                    } else {
                        assert(before[a].0 != before[b].0);
                    }
                }
            },
        }
        let ghost after = fields_view(fields@);
        self.hmap.insert(key, fields);
        assert(self.hashes() =~= old(self).hashes().insert(k, after));
    }

    /// Adds `member` to the set under `key`; tells whether it was new.
    pub fn sadd(&mut self, key: String, member: String) -> (r: bool)
        requires
            old(self).wf(),
        ensures
            final(self).wf(),
            final(self).sets() == old(self).sets().insert(
                key@,
                if old(self).sets().contains_key(key@) {
                    old(self).sets()[key@]
                } else {
                    Set::empty()
                }.insert(member@),
            ),
            r == !(old(self).sets().contains_key(key@) && old(self).sets()[key@].contains(member@)),
            final(self).strings() == old(self).strings(),
            final(self).hashes() == old(self).hashes(),
    {
        let ghost k = key@;
        let ghost m = member@;
        let mut members: Vec<String> = match self.set.get(key.as_str()) {
            Some(v) => copy_members(v),
            None => Vec::new(),
        };
        let ghost before = members_view(members@);
        assert(before == if old(self).sets().contains_key(k) {
            old(self).sets()[k]
        } else {
            Set::<Seq<char>>::empty()
        }) by {
            if !old(self).sets().contains_key(k) {
                assert(before =~= Set::<Seq<char>>::empty());
            }
        }
        let present = find_member(&members, &member);
        if !present {
            let ghost old_members = members@;
            members.push(member);
            assert(members_view(members@) =~= before.insert(m)) by {
                assert(members@[old_members.len() as int]@ == m);
                assert forall|x: Seq<char>| before.contains(x) implies members_view(members@).contains(x) by {
                    let i = choose|i: int| 0 <= i < old_members.len() && old_members[i]@ == x;
                    assert(members@[i] == old_members[i]);
                }
                assert forall|x: Seq<char>| members_view(members@).contains(x) implies before.insert(m).contains(x) by {
                    let i = choose|i: int| 0 <= i < members@.len() && members@[i]@ == x;
                    if i < old_members.len() {
                        assert(members@[i] == old_members[i]);
                    }
                }
            }
        } else {
            assert(before.insert(m) =~= before);
        }
        let ghost after = members_view(members@);
        self.set.insert(key, members);
        assert(self.sets() =~= old(self).sets().insert(k, after));
        assert(self.hashes() =~= old(self).hashes());
        !present
    }

    /// Tells whether `member` is in the set under `key`.
    pub fn sismember(&self, key: &String, member: &String) -> (r: bool)
        ensures
            r == (self.sets().contains_key(key@) && self.sets()[key@].contains(member@)),
    {
        match self.set.get(key.as_str()) {
            Some(v) => {
                assert(self.sets()[key@] == members_view(v@));
                find_member(v, member)
            },
            None => false,
        }
    }
}

/// The index of `field` among the fields, if it is there.
fn find_field(v: &Vec<(String, RespFrame)>, field: &String) -> (r: Option<usize>)
    requires
        unique_fields(fields_view(v@)),
    ensures
        match r {
            Some(i) => i < v@.len() && v@[i as int].0@ == field@ && field_value(
                fields_view(v@),
                field@,
            ) == Some(frame_view(v@[i as int].1)) && forall|x: FrameV|
                set_field(fields_view(v@), field@, x) == fields_view(v@).update(i as int, (field@, x)),
            None => field_value(fields_view(v@), field@) is None && forall|x: FrameV|
                set_field(fields_view(v@), field@, x) == fields_view(v@).push((field@, x)),
        },
{
    let ghost fs = fields_view(v@);
    let mut i: usize = 0;
    while i < v.len()
        invariant
            i <= v@.len(),
            fs == fields_view(v@),
            unique_fields(fs),
            forall|j: int| 0 <= j < i ==> fs[j].0 != field@,
        decreases v.len() - i,
    {
        if v[i].0 == *field {
            assert(fs[i as int].0 == field@);
            assert(exists|j: int| 0 <= j < fs.len() && fs[j].0 == field@);
            let ghost c = choose|j: int| 0 <= j < fs.len() && fs[j].0 == field@;
            assert(c == i) by {
                if c != i {
                    assert(0 <= c < fs.len() && fs[c].0 == field@);
                    if c < i {
                        assert(fs[c].0 != fs[i as int].0);
                    } else {
                        assert(fs[i as int].0 != fs[c].0);
                    }
                }
            }
            assert forall|x: FrameV| set_field(fs, field@, x) == fs.update(i as int, (field@, x)) by {
            }
            return Some(i);
        }
        i = i + 1;
    }
    None
}

/// Tells whether `member` is among the members.
fn find_member(v: &Vec<String>, member: &String) -> (r: bool)
    ensures
        r == members_view(v@).contains(member@),
{
    let mut i: usize = 0;
    while i < v.len()
        invariant
            i <= v@.len(),
            forall|j: int| 0 <= j < i ==> v@[j]@ != member@,
        decreases v.len() - i,
    {
        if v[i] == *member {
            return true;
        }
        i = i + 1;
    }
    false
}

fn copy_fields(v: &Vec<(String, RespFrame)>) -> (r: Vec<(String, RespFrame)>)
    ensures
        fields_view(r@) == fields_view(v@),
{
    let mut out: Vec<(String, RespFrame)> = Vec::new();
    let mut i: usize = 0;
    while i < v.len()
        invariant
            i <= v@.len(),
            out@.len() == i,
            forall|j: int| 0 <= j < i ==> out@[j].0@ == v@[j].0@ && frame_view(out@[j].1) == frame_view(v@[j].1),
        decreases v.len() - i,
    {
        out.push((v[i].0.clone(), v[i].1.copy()));
        i = i + 1;
    }
    assert(fields_view(out@) =~= fields_view(v@));
    out
}

fn copy_members(v: &Vec<String>) -> (r: Vec<String>)
    ensures
        members_view(r@) == members_view(v@),
{
    let mut out: Vec<String> = Vec::new();
    let mut i: usize = 0;
    while i < v.len()
        invariant
            i <= v@.len(),
            out@.len() == i,
            forall|j: int| 0 <= j < i ==> out@[j]@ == v@[j]@,
        decreases v.len() - i,
    {
        out.push(v[i].clone());
        i = i + 1;
    }
    assert(members_view(out@) =~= members_view(v@)) by {
        assert forall|x: Seq<char>| members_view(v@).contains(x) implies members_view(out@).contains(x) by {
            let j = choose|j: int| 0 <= j < v@.len() && v@[j]@ == x;
            assert(out@[j]@ == x);
        }
    }
    out
}

} // verus!
