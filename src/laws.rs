use vstd::prelude::*;

use crate::cmd::{
    command_spec, leading_name, led_by_name, name_echo, name_get, name_hget, name_hgetall, name_hmget,
    name_hset, name_sadd, name_set, name_sismember, CommandV, ErrKind,
};
use crate::exec::{flatten, keyed, next_sets, ok_reply, reply, sort_pairs};
use crate::encode::{crlf, encode_all, encode_frame, encode_pairs, int_text, line, nat_digits};
use crate::frame::FrameV;
use crate::lex::lemma_key_cmp_zero;
use crate::store::unique_fields;
use vstd::utf8::encode_utf8_decode_utf8;
use crate::grammar::{
    keys_ascending, lemma_ins_ascending,
    all_digits, crlf_at, digits_val, frame_length, ins, is_digit, is_float_literal, key_cmp,
    line_end, no_crlf, parse, parse_at, parse_int, parse_items, parse_pairs, sign_len, COLON,
    COMMA, CR, DOLLAR, HASH, LF, MINUS, PERCENT, PLUS, STAR, UNDERSCORE,
};

verus! {

/// A frame that the encoding can carry: texts without CRLF, doubles written
/// as floating literals, lengths within `i64`, and maps that are non-empty
/// with keys in strictly ascending order.
pub open spec fn wf_frame(v: FrameV) -> bool
    decreases v,
{
    match v {
        FrameV::Simple(t) => no_crlf(t),
        FrameV::Error(t) => no_crlf(t),
        FrameV::Integer(n) => i64::MIN <= n <= i64::MAX,
        FrameV::Bulk(Some(b)) => b.len() <= i64::MAX,
        FrameV::Bulk(None) => true,
        FrameV::Array(Some(fs)) => fs.len() <= i64::MAX && forall|i: int|
            0 <= i < fs.len() ==> wf_frame(#[trigger] fs[i]),
        FrameV::Array(None) => true,
        FrameV::Null => true,
        FrameV::Boolean(_) => true,
        FrameV::Double(t) => is_float_literal(t) && no_crlf(t),
        FrameV::Dict(m) => 0 < m.len() && 2 * m.len() <= i64::MAX && (forall|i: int|
            0 <= i < m.len() ==> no_crlf((#[trigger] m[i]).0) && wf_frame(m[i].1)) && (forall|
            i: int,
        |
            0 <= i < m.len() - 1 ==> key_cmp((#[trigger] m[i]).0, m[i + 1].0) < 0),
    }
}

proof fn lemma_line_end_scan(s: Seq<u8>, i: int, e: int)
    requires
        0 <= i <= e,
        crlf_at(s, e),
        forall|j: int| i <= j < e ==> !crlf_at(s, j),
    ensures
        line_end(s, i) == Some(e),
    decreases e - i,
{
    if i < e {
        lemma_line_end_scan(s, i + 1, e);
    }
}

/// A line at `p`: its prefix byte, where its CRLF stands, and its text.
proof fn lemma_line(s: Seq<u8>, p: int, c: u8, t: Seq<u8>)
    requires
        no_crlf(t),
        0 <= p,
        p + t.len() + 3 <= s.len(),
        s.subrange(p, p + t.len() + 3) == line(c, t),
    ensures
        s[p] == c,
        line_end(s, p + 1) == Some(p + 1 + t.len()),
        s.subrange(p + 1, p + 1 + t.len()) == t,
{
    let l = line(c, t);
    let e = p + 1 + t.len();
    assert(s[p] == s.subrange(p, p + t.len() + 3)[0]);
    assert forall|j: int| p + 1 <= j < e implies !crlf_at(s, j) by {
        assert(s[j] == l[j - p]);
        assert(s[j + 1] == l[j + 1 - p]);
        assert(l[j - p] == t[j - p - 1]);
        if j + 1 < e {
            assert(l[j + 1 - p] == t[j - p]);
        } else {
            assert(l[j + 1 - p] == CR);
        }
    }
    assert(s[e] == l[e - p]);
    assert(s[e + 1] == l[e + 1 - p]);
    lemma_line_end_scan(s, p + 1, e);
    assert(s.subrange(p + 1, e) =~= t) by {
        assert forall|j: int| 0 <= j < t.len() implies #[trigger] s.subrange(p + 1, e)[j] == t[j] by {
            assert(s[p + 1 + j] == l[1 + j]);
        }
    }
}

proof fn lemma_nat_digits(m: nat)
    ensures
        nat_digits(m).len() > 0,
        all_digits(nat_digits(m)),
        digits_val(nat_digits(m)) == m,
        is_digit(nat_digits(m)[0]),
    decreases m,
{
    let d = nat_digits(m);
    if m < 10 {
        assert(d.drop_last() =~= Seq::<u8>::empty());
        assert(d.last() as int - 48 == m);
        assert(digits_val(d) == digits_val(d.drop_last()) * 10 + (d.last() as int - 48) as nat);
    } else {
        lemma_nat_digits(m / 10);
        assert(d.last() as int - 48 == m % 10);
        assert(d.drop_last() =~= nat_digits(m / 10));
        assert(d[0] == nat_digits(m / 10)[0]);
        assert(all_digits(d)) by {
            assert forall|i: int| 0 <= i < d.len() implies is_digit(#[trigger] d[i]) by {
                if i < d.len() - 1 {
                    assert(d[i] == nat_digits(m / 10)[i]);
                }
            }
        }
        assert(digits_val(d) == digits_val(d.drop_last()) * 10 + (d.last() as int - 48) as nat);
        assert(digits_val(d) == (m / 10) * 10 + m % 10);
        assert((m / 10) * 10 + m % 10 == m) by (nonlinear_arith);
    }
}

proof fn lemma_digits_no_crlf(d: Seq<u8>)
    requires
        all_digits(d),
    ensures
        no_crlf(d),
{
    assert forall|i: int| 0 <= i < d.len() - 1 implies !(#[trigger] d[i] == CR && d[i + 1] == LF) by {
        assert(is_digit(d[i]));
    }
}

/// The decimal text of an integer reads back as that integer.
proof fn lemma_int_text(n: int)
    requires
        i64::MIN <= n <= i64::MAX,
    ensures
        parse_int(int_text(n)) == Some(n),
        no_crlf(int_text(n)),
{
    let t = int_text(n);
    if n < 0 {
        let d = nat_digits((-n) as nat);
        lemma_nat_digits((-n) as nat);
        assert(t[0] == MINUS);
        assert(sign_len(t) == 1);
        assert(t.subrange(1, t.len() as int) =~= d);
        lemma_digits_no_crlf(d);
        assert forall|i: int| 0 <= i < t.len() - 1 implies !(#[trigger] t[i] == CR && t[i + 1] == LF) by {
            if i > 0 {
                assert(t[i] == d[i - 1]);
                assert(is_digit(d[i - 1]));
            }
        }
    } else {
        let d = nat_digits(n as nat);
        lemma_nat_digits(n as nat);
        assert(sign_len(t) == 0);
        assert(t.subrange(0, t.len() as int) =~= d);
        lemma_digits_no_crlf(d);
    }
}

proof fn lemma_encode_all_head(x: Seq<FrameV>)
    requires
        x.len() > 0,
    ensures
        encode_all(x) == encode_frame(x[0]) + encode_all(x.drop_first()),
    decreases x.len(),
{
    if x.len() == 1 {
        assert(x.drop_last() =~= Seq::<FrameV>::empty());
        assert(x.drop_first() =~= Seq::<FrameV>::empty());
        assert(encode_all(x) =~= encode_frame(x[0]) + encode_all(x.drop_first()));
    } else {
        lemma_encode_all_head(x.drop_last());
        assert(x.drop_last().drop_first() =~= x.drop_first().drop_last());
        assert(x.drop_first().last() == x.last());
        assert(encode_all(x) =~= encode_frame(x[0]) + encode_all(x.drop_first()));
    }
}

proof fn lemma_encode_pairs_head(x: Seq<(Seq<u8>, FrameV)>)
    requires
        x.len() > 0,
    ensures
        encode_pairs(x) == line(PLUS, x[0].0) + encode_frame(x[0].1) + encode_pairs(x.drop_first()),
    decreases x.len(),
{
    if x.len() == 1 {
        assert(x.drop_last() =~= Seq::<(Seq<u8>, FrameV)>::empty());
        assert(x.drop_first() =~= Seq::<(Seq<u8>, FrameV)>::empty());
        assert(encode_pairs(x) =~= line(PLUS, x[0].0) + encode_frame(x[0].1) + encode_pairs(
            x.drop_first(),
        ));
    } else {
        lemma_encode_pairs_head(x.drop_last());
        assert(x.drop_last().drop_first() =~= x.drop_first().drop_last());
        assert(x.drop_first().last() == x.last());
        assert(encode_pairs(x) =~= line(PLUS, x[0].0) + encode_frame(x[0].1) + encode_pairs(
            x.drop_first(),
        ));
    }
}

proof fn lemma_encode_len(v: FrameV)
    ensures
        encode_frame(v).len() >= 3,
{
}

proof fn lemma_items_encoded(s: Seq<u8>, q: int, fs: Seq<FrameV>, i: int)
    requires
        0 <= i <= fs.len(),
        forall|j: int| 0 <= j < fs.len() ==> wf_frame(#[trigger] fs[j]),
        0 <= q,
        q + encode_all(fs.subrange(i, fs.len() as int)).len() <= s.len(),
        s.subrange(q, q + encode_all(fs.subrange(i, fs.len() as int)).len()) == encode_all(
            fs.subrange(i, fs.len() as int),
        ),
    ensures
        parse_items(s, q, (fs.len() - i) as nat) == Ok::<(Seq<FrameV>, int), crate::frame::RespError>(
            (fs.subrange(i, fs.len() as int), q + encode_all(fs.subrange(i, fs.len() as int)).len()),
        ),
    decreases fs, fs.len() - i,
{
    let x = fs.subrange(i, fs.len() as int);
    if i == fs.len() {
        assert(x =~= Seq::<FrameV>::empty());
    } else {
        lemma_encode_all_head(x);
        let a = encode_frame(fs[i]).len() as int;
        let rest = encode_all(x.drop_first());
        let rl = rest.len() as int;
        assert(x[0] == fs[i]);
        assert(x.drop_first() =~= fs.subrange(i + 1, fs.len() as int));
        let big = s.subrange(q, q + encode_all(x).len());
        assert(big == encode_frame(fs[i]) + rest);
        assert(big.subrange(0, a) =~= encode_frame(fs[i]));
        assert(big.subrange(a, a + rl) =~= rest);
        assert(s.subrange(q, q + a) =~= big.subrange(0, a));
        assert(s.subrange(q + a, q + a + rl) =~= big.subrange(a, a + rl));
        assert(decreases_to!(fs => fs[i]));
        lemma_parse_encoded(s, q, fs[i]);
        lemma_encode_len(fs[i]);
        lemma_items_encoded(s, q + a, fs, i + 1);
        assert(seq![fs[i]] + fs.subrange(i + 1, fs.len() as int) =~= x);
    }
}

proof fn lemma_pairs_encoded(s: Seq<u8>, q: int, m: Seq<(Seq<u8>, FrameV)>, i: int)
    requires
        0 <= i <= m.len(),
        forall|j: int| 0 <= j < m.len() ==> no_crlf((#[trigger] m[j]).0) && wf_frame(m[j].1),
        forall|j: int| 0 <= j < m.len() - 1 ==> key_cmp((#[trigger] m[j]).0, m[j + 1].0) < 0,
        0 <= q,
        q + encode_pairs(m.subrange(i, m.len() as int)).len() <= s.len(),
        s.subrange(q, q + encode_pairs(m.subrange(i, m.len() as int)).len()) == encode_pairs(
            m.subrange(i, m.len() as int),
        ),
    ensures
        parse_pairs(s, q, (m.len() - i) as nat, m.subrange(0, i)) == Ok::<
            (Seq<(Seq<u8>, FrameV)>, int),
            crate::frame::RespError,
        >((m, q + encode_pairs(m.subrange(i, m.len() as int)).len())),
    decreases m, m.len() - i,
{
    let x = m.subrange(i, m.len() as int);
    if i == m.len() {
        assert(x =~= Seq::<(Seq<u8>, FrameV)>::empty());
        assert(m.subrange(0, i) =~= m);
    } else {
        lemma_encode_pairs_head(x);
        assert(x[0] == m[i]);
        assert(x.drop_first() =~= m.subrange(i + 1, m.len() as int));
        let key = m[i].0;
        let val = m[i].1;
        let ll = line(PLUS, key).len() as int;
        let a = encode_frame(val).len() as int;
        let rest = encode_pairs(x.drop_first());
        let rl = rest.len() as int;
        let big = s.subrange(q, q + encode_pairs(x).len());
        assert(big == line(PLUS, key) + encode_frame(val) + rest);
        assert(big.subrange(0, ll) =~= line(PLUS, key));
        assert(big.subrange(ll, ll + a) =~= encode_frame(val));
        assert(big.subrange(ll + a, ll + a + rl) =~= rest);
        assert(s.subrange(q, q + ll) =~= big.subrange(0, ll));
        assert(s.subrange(q + ll, q + ll + a) =~= big.subrange(ll, ll + a));
        assert(s.subrange(q + ll + a, q + ll + a + rl) =~= big.subrange(ll + a, ll + a + rl));
        lemma_line(s, q, PLUS, key);
        let e = q + 1 + key.len();
        assert(decreases_to!(m => m[i]));
        assert(decreases_to!(m[i] => m[i].1));
        lemma_parse_encoded(s, e + 2, val);
        lemma_encode_len(val);
        let pre = m.subrange(0, i);
        if i == 0 {
            assert(ins(pre, key, val) =~= m.subrange(0, i + 1));
        } else {
            assert(pre.last() == m[i - 1]);
            assert(key_cmp(m[i - 1].0, m[i].0) < 0);
            assert(ins(pre, key, val) =~= m.subrange(0, i + 1));
        }
        lemma_pairs_encoded(s, q + ll + a, m, i + 1);
    }
}

/// Decoding reads back what encoding wrote: wherever the encoding of a frame
/// stands in a byte sequence, the frame is read there, and reading ends
/// exactly where the encoding ends.
#[verifier::spinoff_prover]
#[verifier::rlimit(100)]
pub proof fn lemma_parse_encoded(s: Seq<u8>, p: int, v: FrameV)
    requires
        wf_frame(v),
        0 <= p,
        p + encode_frame(v).len() <= s.len(),
        s.subrange(p, p + encode_frame(v).len()) == encode_frame(v),
    ensures
        parse_at(s, p) == Ok::<(FrameV, int), crate::frame::RespError>((v, p + encode_frame(v).len())),
    decreases v, 0int,
{
    let enc = encode_frame(v);
    match v {
        FrameV::Simple(t) => {
            lemma_line(s, p, PLUS, t);
        },
        FrameV::Error(t) => {
            lemma_line(s, p, MINUS, t);
        },
        FrameV::Integer(n) => {
            lemma_int_text(n);
            lemma_line(s, p, COLON, int_text(n));
        },
        FrameV::Bulk(None) => {
            lemma_int_text(-1);
            lemma_line(s, p, DOLLAR, int_text(-1));
        },
        FrameV::Bulk(Some(b)) => {
            let d = nat_digits(b.len());
            lemma_int_text(b.len() as int);
            assert(int_text(b.len() as int) == d);
            let ll = line(DOLLAR, d).len() as int;
            assert(enc == line(DOLLAR, d) + b + crlf());
            assert(enc.subrange(0, ll) =~= line(DOLLAR, d));
            assert(s.subrange(p, p + ll) =~= enc.subrange(0, ll));
            lemma_line(s, p, DOLLAR, d);
            let h = p + ll;
            assert(s.subrange(h, h + b.len()) =~= b) by {
                assert forall|j: int| 0 <= j < b.len() implies #[trigger] s.subrange(h, h + b.len())[j] == b[j] by {
                    assert(s[h + j] == enc[ll + j]);
                }
            }
            assert(s[h + b.len() as int] == enc[ll + b.len() as int]);
            assert(s[h + b.len() as int + 1] == enc[ll + b.len() as int + 1]);
        },
        FrameV::Array(None) => {
            lemma_int_text(-1);
            lemma_line(s, p, STAR, int_text(-1));
        },
        FrameV::Array(Some(fs)) => {
            let d = nat_digits(fs.len());
            lemma_int_text(fs.len() as int);
            assert(int_text(fs.len() as int) == d);
            let ll = line(STAR, d).len() as int;
            assert(enc == line(STAR, d) + encode_all(fs));
            assert(enc.subrange(0, ll) =~= line(STAR, d));
            assert(s.subrange(p, p + ll) =~= enc.subrange(0, ll));
            lemma_line(s, p, STAR, d);
            let h = p + ll;
            let body = encode_all(fs);
            assert(enc.subrange(ll, enc.len() as int) =~= body);
            assert(s.subrange(h, h + body.len() as int) =~= enc.subrange(ll, enc.len() as int));
            assert(fs.subrange(0, fs.len() as int) =~= fs);
            lemma_items_encoded(s, h, fs, 0);
        },
        FrameV::Null => {
            lemma_line(s, p, UNDERSCORE, Seq::empty());
        },
        FrameV::Boolean(b) => {
            let t = if b {
                seq![116u8]
            } else {
                seq![102u8]
            };
            lemma_line(s, p, HASH, t);
        },
        FrameV::Double(t) => {
            lemma_line(s, p, COMMA, t);
        },
        FrameV::Dict(m) => {
            let d = nat_digits(2 * m.len());
            lemma_int_text(2 * m.len() as int);
            assert(int_text(2 * m.len() as int) == d);
            let ll = line(PERCENT, d).len() as int;
            assert(enc == line(PERCENT, d) + encode_pairs(m));
            assert(enc.subrange(0, ll) =~= line(PERCENT, d));
            assert(s.subrange(p, p + ll) =~= enc.subrange(0, ll));
            lemma_line(s, p, PERCENT, d);
            let h = p + ll;
            let body = encode_pairs(m);
            assert(enc.subrange(ll, enc.len() as int) =~= body);
            assert(s.subrange(h, h + body.len() as int) =~= enc.subrange(ll, enc.len() as int));
            assert(m.subrange(0, m.len() as int) =~= m);
            assert(m.subrange(0, 0) =~= Seq::<(Seq<u8>, FrameV)>::empty());
            assert((2 * m.len()) / 2 == m.len());
            lemma_pairs_encoded(s, h, m, 0);
        },
    }
}

/// Round trip: a frame followed by any bytes decodes to itself, and the
/// length scan reports exactly its encoding's length.
pub proof fn lemma_round_trip(v: FrameV, rest: Seq<u8>)
    requires
        wf_frame(v),
    ensures
        parse(encode_frame(v) + rest) == Ok::<(FrameV, int), crate::frame::RespError>(
            (v, encode_frame(v).len() as int),
        ),
        frame_length(encode_frame(v) + rest) == Ok::<int, crate::frame::RespError>(
            encode_frame(v).len() as int,
        ),
{
    let s = encode_frame(v) + rest;
    assert(s.subrange(0, encode_frame(v).len() as int) =~= encode_frame(v));
    lemma_parse_encoded(s, 0, v);
}

} // verus!

verus! {

/// The length scan and decoding agree: where the scan reports a length, a
/// decode of the same bytes succeeds and consumes exactly that many bytes.
pub proof fn lemma_scan_agrees_with_decode(s: Seq<u8>)
    ensures
        frame_length(s) is Ok <==> parse(s) is Ok,
        frame_length(s) is Ok ==> frame_length(s)->Ok_0 == parse(s)->Ok_0.1,
        frame_length(s) is Err ==> frame_length(s)->Err_0 == parse(s)->Err_0,
{
}

/// The sum of the encoded lengths of the frames.
pub open spec fn sum_lengths(fs: Seq<FrameV>) -> int
    decreases fs.len(),
{
    if fs.len() == 0 {
        0
    } else {
        sum_lengths(fs.drop_last()) + encode_frame(fs.last()).len()
    }
}

proof fn lemma_encode_all_len(fs: Seq<FrameV>)
    ensures
        encode_all(fs).len() == sum_lengths(fs),
    decreases fs.len(),
{
    if fs.len() > 0 {
        lemma_encode_all_len(fs.drop_last());
    }
}

/// An array of arrays scans to its header's length plus the lengths of its
/// elements, each of which scans to its own encoded length.
pub proof fn lemma_nested_array_length(fs: Seq<FrameV>, rest: Seq<u8>)
    requires
        wf_frame(FrameV::Array(Some(fs))),
        forall|i: int| 0 <= i < fs.len() ==> (#[trigger] fs[i]) is Array,
    ensures
        frame_length(encode_frame(FrameV::Array(Some(fs))) + rest) == Ok::<int, crate::frame::RespError>(
            line(STAR, nat_digits(fs.len())).len() + sum_lengths(fs),
        ),
        forall|i: int|
            0 <= i < fs.len() ==> frame_length(encode_frame(#[trigger] fs[i]) + rest) == Ok::<
                int,
                crate::frame::RespError,
            >(encode_frame(fs[i]).len() as int),
{
    lemma_round_trip(FrameV::Array(Some(fs)), rest);
    lemma_encode_all_len(fs);
    assert forall|i: int| 0 <= i < fs.len() implies frame_length(encode_frame(#[trigger] fs[i]) + rest)
        == Ok::<int, crate::frame::RespError>(encode_frame(fs[i]).len() as int) by {
        lemma_round_trip(fs[i], rest);
    }
}

/// A bulk string or an array that declares a negative length other than -1
/// is an invalid frame, whatever follows it.
pub proof fn lemma_negative_length_invalid(c: u8, n: int, rest: Seq<u8>)
    requires
        c == DOLLAR || c == STAR,
        i64::MIN <= n < -1,
    ensures
        parse(line(c, int_text(n)) + rest) == Err::<(FrameV, int), crate::frame::RespError>(
            crate::frame::RespError::InvalidFrame,
        ),
{
    let t = int_text(n);
    let s = line(c, t) + rest;
    lemma_int_text(n);
    assert(s.subrange(0, t.len() + 3 as int) =~= line(c, t));
    lemma_line(s, 0, c, t);
}

} // verus!

verus! {

/// A member just added to a set is found there; a member that was never
/// added to a set that did not hold it is not.
pub proof fn lemma_sadd_then_sismember(
    strings: Map<Seq<char>, FrameV>,
    hashes: Map<Seq<char>, Seq<(Seq<char>, FrameV)>>,
    sets: Map<Seq<char>, Set<Seq<char>>>,
    key: Seq<char>,
    member: Seq<char>,
    other: Seq<char>,
)
    requires
        other != member,
        !(sets.contains_key(key) && sets[key].contains(other)),
    ensures
        reply(
            CommandV::SisMember(key, member),
            strings,
            hashes,
            next_sets(CommandV::SAdd(key, member), sets),
        ) == FrameV::Integer(1),
        reply(
            CommandV::SisMember(key, other),
            strings,
            hashes,
            next_sets(CommandV::SAdd(key, member), sets),
        ) == FrameV::Integer(0),
{
}

/// Reading a string key that was never written gives the null frame, and
/// reading all fields of an absent hash gives an empty array.
pub proof fn lemma_absent_key_reads(
    strings: Map<Seq<char>, FrameV>,
    hashes: Map<Seq<char>, Seq<(Seq<char>, FrameV)>>,
    sets: Map<Seq<char>, Set<Seq<char>>>,
    key: Seq<char>,
    sort: bool,
)
    ensures
        !strings.contains_key(key) ==> reply(CommandV::Get(key), strings, hashes, sets)
            == FrameV::Null,
        !hashes.contains_key(key) ==> reply(CommandV::HGetAll(key, sort), strings, hashes, sets)
            == FrameV::Array(Some(Seq::<FrameV>::empty())),
{
}

/// An array led by a non-null bulk string that names no known command builds the
/// unrecognized command, which replies with the fixed acknowledgment.
pub proof fn lemma_unknown_name_acknowledged(
    items: Seq<FrameV>,
    strings: Map<Seq<char>, FrameV>,
    hashes: Map<Seq<char>, Seq<(Seq<char>, FrameV)>>,
    sets: Map<Seq<char>, Set<Seq<char>>>,
)
    requires
        led_by_name(items),
        leading_name(items) != name_get(),
        leading_name(items) != name_set(),
        leading_name(items) != name_hget(),
        leading_name(items) != name_hset(),
        leading_name(items) != name_hgetall(),
        leading_name(items) != name_hmget(),
        leading_name(items) != name_echo(),
        leading_name(items) != name_sadd(),
        leading_name(items) != name_sismember(),
    ensures
        command_spec(items) == Ok::<CommandV, ErrKind>(CommandV::Unrecognized),
        reply(CommandV::Unrecognized, strings, hashes, sets) == ok_reply(),
{
}

} // verus!

verus! {

proof fn lemma_sort_pairs_ascending(m: Seq<(Seq<u8>, FrameV)>)
    ensures
        keys_ascending(sort_pairs(m)),
    decreases m.len(),
{
    if m.len() > 0 {
        lemma_sort_pairs_ascending(m.drop_last());
        lemma_ins_ascending(sort_pairs(m.drop_last()), m.last().0, m.last().1);
    }
}

proof fn lemma_flatten(m: Seq<(Seq<u8>, FrameV)>)
    ensures
        flatten(m).len() == 2 * m.len(),
        forall|i: int|
            0 <= i < m.len() ==> flatten(m)[2 * i] == FrameV::Bulk(Some((#[trigger] m[i]).0))
                && flatten(m)[2 * i + 1] == m[i].1,
    decreases m.len(),
{
    if m.len() > 0 {
        lemma_flatten(m.drop_last());
        let f = flatten(m);
        let g = flatten(m.drop_last());
        assert forall|i: int| 0 <= i < m.len() implies f[2 * i] == FrameV::Bulk(Some((#[trigger] m[i]).0))
            && f[2 * i + 1] == m[i].1 by {
            if i < m.len() - 1 {
                assert(f[2 * i] == g[2 * i]);
                assert(f[2 * i + 1] == g[2 * i + 1]);
                assert(m.drop_last()[i] == m[i]);
            }
        }
    }
}

/// Reading all fields of a hash with the sort option gives each field as a
/// bulk string of its UTF-8 bytes followed by its value, with the field names
/// in strictly ascending byte order, whatever order they were written in.
pub proof fn lemma_hgetall_sorted(
    strings: Map<Seq<char>, FrameV>,
    hashes: Map<Seq<char>, Seq<(Seq<char>, FrameV)>>,
    sets: Map<Seq<char>, Set<Seq<char>>>,
    key: Seq<char>,
)
    requires
        hashes.contains_key(key),
    ensures
        ({
            let pm = sort_pairs(keyed(hashes[key]));
            &&& reply(CommandV::HGetAll(key, true), strings, hashes, sets) == FrameV::Array(
                Some(flatten(pm)),
            )
            &&& keys_ascending(pm)
            &&& flatten(pm).len() == 2 * pm.len()
            &&& forall|i: int|
                0 <= i < pm.len() ==> flatten(pm)[2 * i] == FrameV::Bulk(Some((#[trigger] pm[i]).0))
                    && flatten(pm)[2 * i + 1] == pm[i].1
        }),
{
    let pm = sort_pairs(keyed(hashes[key]));
    lemma_sort_pairs_ascending(keyed(hashes[key]));
    lemma_flatten(pm);
}

} // verus!

verus! {

proof fn lemma_line_end_none(s: Seq<u8>, i: int)
    requires
        0 <= i,
        forall|j: int| i <= j ==> !crlf_at(s, j),
    ensures
        line_end(s, i) is None,
    decreases s.len() - i,
{
    if i + 1 < s.len() {
        lemma_line_end_none(s, i + 1);
    }
}

/// A line cut before its CRLF is complete has no line end yet.
proof fn lemma_cut_line(s: Seq<u8>, p: int, c: u8, t: Seq<u8>)
    requires
        no_crlf(t),
        0 <= p < s.len(),
        s.len() < p + t.len() + 3,
        s.subrange(p, s.len() as int) == line(c, t).subrange(0, s.len() - p),
    ensures
        s[p] == c,
        line_end(s, p + 1) is None,
{
    let l = line(c, t);
    assert(s[p] == s.subrange(p, s.len() as int)[0]);
    assert forall|j: int| p + 1 <= j implies !crlf_at(s, j) by {
        if crlf_at(s, j) {
            assert(s[j] == s.subrange(p, s.len() as int)[j - p]);
            assert(s[j + 1] == s.subrange(p, s.len() as int)[j + 1 - p]);
            assert(s[j] == l[j - p]);
            assert(s[j + 1] == l[j + 1 - p]);
            assert(l[j - p] == t[j - p - 1]);
            if j + 1 - p <= t.len() {
                assert(l[j + 1 - p] == t[j - p]);
            } else {
                assert(l[j + 1 - p] == CR);
            }
        }
    }
    lemma_line_end_none(s, p + 1);
}

proof fn lemma_items_cut(s: Seq<u8>, q: int, fs: Seq<FrameV>, i: int)
    requires
        0 <= i <= fs.len(),
        forall|j: int| 0 <= j < fs.len() ==> wf_frame(#[trigger] fs[j]),
        0 <= q <= s.len(),
        s.len() - q < encode_all(fs.subrange(i, fs.len() as int)).len(),
        s.subrange(q, s.len() as int) == encode_all(fs.subrange(i, fs.len() as int)).subrange(
            0,
            s.len() - q,
        ),
    ensures
        parse_items(s, q, (fs.len() - i) as nat) == Err::<(Seq<FrameV>, int), crate::frame::RespError>(
            crate::frame::RespError::NotComplete,
        ),
    decreases fs, fs.len() - i,
{
    let x = fs.subrange(i, fs.len() as int);
    if i == fs.len() {
        assert(x =~= Seq::<FrameV>::empty());
    } else {
        lemma_encode_all_head(x);
        assert(x[0] == fs[i]);
        assert(x.drop_first() =~= fs.subrange(i + 1, fs.len() as int));
        let a = encode_frame(fs[i]).len() as int;
        let rest = encode_all(x.drop_first());
        let big = encode_all(x);
        let k = s.len() - q;
        assert(big == encode_frame(fs[i]) + rest);
        assert(decreases_to!(fs => fs[i]));
        lemma_encode_len(fs[i]);
        if k < a {
            assert(s.subrange(q, s.len() as int) =~= encode_frame(fs[i]).subrange(0, k));
            lemma_parse_cut(s, q, fs[i]);
        } else {
            assert(s.subrange(q, q + a) =~= encode_frame(fs[i])) by {
                assert forall|j: int| 0 <= j < a implies #[trigger] s.subrange(q, q + a)[j] == encode_frame(fs[i])[j] by {
                    assert(s[q + j] == s.subrange(q, s.len() as int)[j]);
                    assert(big[j] == encode_frame(fs[i])[j]);
                }
            }
            lemma_parse_encoded(s, q, fs[i]);
            assert(s.subrange(q + a, s.len() as int) =~= rest.subrange(0, k - a)) by {
                assert forall|j: int| 0 <= j < k - a implies #[trigger] s.subrange(q + a, s.len() as int)[j]
                    == rest.subrange(0, k - a)[j] by {
                    assert(s[q + a + j] == s.subrange(q, s.len() as int)[a + j]);
                    assert(big[a + j] == rest[j]);
                }
            }
            lemma_items_cut(s, q + a, fs, i + 1);
        }
    }
}

proof fn lemma_pairs_cut(
    s: Seq<u8>,
    q: int,
    m: Seq<(Seq<u8>, FrameV)>,
    i: int,
    acc: Seq<(Seq<u8>, FrameV)>,
)
    requires
        0 <= i <= m.len(),
        forall|j: int| 0 <= j < m.len() ==> no_crlf((#[trigger] m[j]).0) && wf_frame(m[j].1),
        0 <= q <= s.len(),
        s.len() - q < encode_pairs(m.subrange(i, m.len() as int)).len(),
        s.subrange(q, s.len() as int) == encode_pairs(m.subrange(i, m.len() as int)).subrange(
            0,
            s.len() - q,
        ),
    ensures
        parse_pairs(s, q, (m.len() - i) as nat, acc) == Err::<
            (Seq<(Seq<u8>, FrameV)>, int),
            crate::frame::RespError,
        >(crate::frame::RespError::NotComplete),
    decreases m, m.len() - i,
{
    let x = m.subrange(i, m.len() as int);
    if i == m.len() {
        assert(x =~= Seq::<(Seq<u8>, FrameV)>::empty());
    } else {
        lemma_encode_pairs_head(x);
        assert(x[0] == m[i]);
        assert(x.drop_first() =~= m.subrange(i + 1, m.len() as int));
        let key = m[i].0;
        let val = m[i].1;
        let l = line(PLUS, key);
        let ll = l.len() as int;
        let a = encode_frame(val).len() as int;
        let rest = encode_pairs(x.drop_first());
        let big = encode_pairs(x);
        let k = s.len() - q;
        assert(big == l + encode_frame(val) + rest);
        assert(decreases_to!(m => m[i]));
        assert(decreases_to!(m[i] => m[i].1));
        if k == 0 {
        } else if k < ll {
            assert(s.subrange(q, s.len() as int) =~= l.subrange(0, k));
            lemma_cut_line(s, q, PLUS, key);
        } else {
            assert(s.subrange(q, q + ll) =~= l) by {
                assert forall|j: int| 0 <= j < ll implies #[trigger] s.subrange(q, q + ll)[j] == l[j] by {
                    assert(s[q + j] == s.subrange(q, s.len() as int)[j]);
                    assert(big[j] == l[j]);
                }
            }
            lemma_line(s, q, PLUS, key);
            let e = q + 1 + key.len();
            lemma_encode_len(val);
            if k < ll + a {
                assert(s.subrange(e + 2, s.len() as int) =~= encode_frame(val).subrange(0, k - ll)) by {
                    assert forall|j: int| 0 <= j < k - ll implies #[trigger] s.subrange(e + 2, s.len() as int)[j]
                        == encode_frame(val).subrange(0, k - ll)[j] by {
                        assert(s[q + ll + j] == s.subrange(q, s.len() as int)[ll + j]);
                        assert(big[ll + j] == encode_frame(val)[j]);
                    }
                }
                lemma_parse_cut(s, e + 2, val);
            } else {
                assert(s.subrange(e + 2, e + 2 + a) =~= encode_frame(val)) by {
                    assert forall|j: int| 0 <= j < a implies #[trigger] s.subrange(e + 2, e + 2 + a)[j]
                        == encode_frame(val)[j] by {
                        assert(s[q + ll + j] == s.subrange(q, s.len() as int)[ll + j]);
                        assert(big[ll + j] == encode_frame(val)[j]);
                    }
                }
                lemma_parse_encoded(s, e + 2, val);
                assert(s.subrange(q + ll + a, s.len() as int) =~= rest.subrange(0, k - ll - a)) by {
                    assert forall|j: int| 0 <= j < k - ll - a implies #[trigger] s.subrange(
                        q + ll + a,
                        s.len() as int,
                    )[j] == rest.subrange(0, k - ll - a)[j] by {
                        assert(s[q + ll + a + j] == s.subrange(q, s.len() as int)[ll + a + j]);
                        assert(big[ll + a + j] == rest[j]);
                    }
                }
                lemma_pairs_cut(s, q + ll + a, m, i + 1, ins(acc, s.subrange(q + 1, e), val));
            }
        }
    }
}

/// Bytes that stop short of the end of an encoded frame are reported as not
/// yet complete, wherever they stand.
#[verifier::spinoff_prover]
#[verifier::rlimit(100)]
pub proof fn lemma_parse_cut(s: Seq<u8>, p: int, v: FrameV)
    requires
        wf_frame(v),
        0 <= p <= s.len(),
        s.len() - p < encode_frame(v).len(),
        s.subrange(p, s.len() as int) == encode_frame(v).subrange(0, s.len() - p),
    ensures
        parse_at(s, p) == Err::<(FrameV, int), crate::frame::RespError>(
            crate::frame::RespError::NotComplete,
        ),
    decreases v, 0int,
{
    let enc = encode_frame(v);
    let k = s.len() - p;
    if k == 0 {
        return;
    }
    match v {
        FrameV::Simple(t) => {
            lemma_cut_line(s, p, PLUS, t);
        },
        FrameV::Error(t) => {
            lemma_cut_line(s, p, MINUS, t);
        },
        FrameV::Integer(n) => {
            lemma_int_text(n);
            lemma_cut_line(s, p, COLON, int_text(n));
        },
        FrameV::Bulk(None) => {
            lemma_int_text(-1);
            lemma_cut_line(s, p, DOLLAR, int_text(-1));
        },
        FrameV::Array(None) => {
            lemma_int_text(-1);
            lemma_cut_line(s, p, STAR, int_text(-1));
        },
        FrameV::Null => {
            lemma_cut_line(s, p, UNDERSCORE, Seq::empty());
        },
        FrameV::Boolean(b) => {
            let t = if b {
                seq![116u8]
            } else {
                seq![102u8]
            };
            lemma_cut_line(s, p, HASH, t);
        },
        FrameV::Double(t) => {
            lemma_cut_line(s, p, COMMA, t);
        },
        FrameV::Bulk(Some(b)) => {
            let d = nat_digits(b.len());
            lemma_int_text(b.len() as int);
            assert(int_text(b.len() as int) == d);
            let l = line(DOLLAR, d);
            let ll = l.len() as int;
            assert(enc == l + b + crlf());
            if k < ll {
                assert(s.subrange(p, s.len() as int) =~= l.subrange(0, k));
                lemma_cut_line(s, p, DOLLAR, d);
            } else {
                assert(s.subrange(p, p + ll) =~= l) by {
                    assert forall|j: int| 0 <= j < ll implies #[trigger] s.subrange(p, p + ll)[j] == l[j] by {
                        assert(s[p + j] == s.subrange(p, s.len() as int)[j]);
                        assert(enc[j] == l[j]);
                    }
                }
                lemma_line(s, p, DOLLAR, d);
            }
        },
        FrameV::Array(Some(fs)) => {
            let d = nat_digits(fs.len());
            lemma_int_text(fs.len() as int);
            assert(int_text(fs.len() as int) == d);
            let l = line(STAR, d);
            let ll = l.len() as int;
            let body = encode_all(fs);
            assert(enc == l + body);
            if k < ll {
                assert(s.subrange(p, s.len() as int) =~= l.subrange(0, k));
                lemma_cut_line(s, p, STAR, d);
            } else {
                assert(s.subrange(p, p + ll) =~= l) by {
                    assert forall|j: int| 0 <= j < ll implies #[trigger] s.subrange(p, p + ll)[j] == l[j] by {
                        assert(s[p + j] == s.subrange(p, s.len() as int)[j]);
                        assert(enc[j] == l[j]);
                    }
                }
                lemma_line(s, p, STAR, d);
                assert(fs.subrange(0, fs.len() as int) =~= fs);
                assert(s.subrange(p + ll, s.len() as int) =~= body.subrange(0, k - ll)) by {
                    assert forall|j: int| 0 <= j < k - ll implies #[trigger] s.subrange(p + ll, s.len() as int)[j]
                        == body.subrange(0, k - ll)[j] by {
                        assert(s[p + ll + j] == s.subrange(p, s.len() as int)[ll + j]);
                        assert(enc[ll + j] == body[j]);
                    }
                }
                lemma_items_cut(s, p + ll, fs, 0);
            }
        },
        FrameV::Dict(m) => {
            let d = nat_digits(2 * m.len());
            lemma_int_text(2 * m.len() as int);
            assert(int_text(2 * m.len() as int) == d);
            let l = line(PERCENT, d);
            let ll = l.len() as int;
            let body = encode_pairs(m);
            assert(enc == l + body);
            if k < ll {
                assert(s.subrange(p, s.len() as int) =~= l.subrange(0, k));
                lemma_cut_line(s, p, PERCENT, d);
            } else {
                assert(s.subrange(p, p + ll) =~= l) by {
                    assert forall|j: int| 0 <= j < ll implies #[trigger] s.subrange(p, p + ll)[j] == l[j] by {
                        assert(s[p + j] == s.subrange(p, s.len() as int)[j]);
                        assert(enc[j] == l[j]);
                    }
                }
                lemma_line(s, p, PERCENT, d);
                assert(m.subrange(0, m.len() as int) =~= m);
                assert((2 * m.len()) / 2 == m.len());
                assert(s.subrange(p + ll, s.len() as int) =~= body.subrange(0, k - ll)) by {
                    assert forall|j: int| 0 <= j < k - ll implies #[trigger] s.subrange(p + ll, s.len() as int)[j]
                        == body.subrange(0, k - ll)[j] by {
                        assert(s[p + ll + j] == s.subrange(p, s.len() as int)[ll + j]);
                        assert(enc[ll + j] == body[j]);
                    }
                }
                lemma_pairs_cut(s, p + ll, m, 0, Seq::empty());
            }
        },
    }
}

/// Every strict prefix of an encoded frame is reported as not yet complete,
/// by the length scan and by decoding alike.
pub proof fn lemma_prefix_not_complete(v: FrameV, k: int)
    requires
        wf_frame(v),
        0 <= k < encode_frame(v).len(),
    ensures
        parse(encode_frame(v).subrange(0, k)) == Err::<(FrameV, int), crate::frame::RespError>(
            crate::frame::RespError::NotComplete,
        ),
        frame_length(encode_frame(v).subrange(0, k)) == Err::<int, crate::frame::RespError>(
            crate::frame::RespError::NotComplete,
        ),
{
    let s = encode_frame(v).subrange(0, k);
    assert(s.subrange(0, s.len() as int) =~= encode_frame(v).subrange(0, k));
    lemma_parse_cut(s, 0, v);
}

} // verus!

verus! {

/// No key appears twice.
pub open spec fn unique_keys(m: Seq<(Seq<u8>, FrameV)>) -> bool {
    forall|i: int, j: int| 0 <= i < j < m.len() ==> (#[trigger] m[i]).0 != (#[trigger] m[j]).0
}

proof fn lemma_key_cmp_refl(a: Seq<u8>)
    ensures
        key_cmp(a, a) == 0,
    decreases a.len(),
{
    if a.len() > 0 {
        lemma_key_cmp_refl(a.drop_first());
    }
}

proof fn lemma_key_cmp_trans(a: Seq<u8>, b: Seq<u8>, c: Seq<u8>)
    requires
        key_cmp(a, b) < 0,
        key_cmp(b, c) < 0,
    ensures
        key_cmp(a, c) < 0,
    decreases a.len(),
{
    if a.len() > 0 && b.len() > 0 && c.len() > 0 && a[0] == b[0] && b[0] == c[0] {
        lemma_key_cmp_trans(a.drop_first(), b.drop_first(), c.drop_first());
    }
}

proof fn lemma_ascending_all(m: Seq<(Seq<u8>, FrameV)>)
    requires
        keys_ascending(m),
    ensures
        forall|i: int, j: int|
            0 <= i < j < m.len() ==> key_cmp((#[trigger] m[i]).0, (#[trigger] m[j]).0) < 0,
    decreases m.len(),
{
    if m.len() > 1 {
        let d = m.drop_last();
        assert(keys_ascending(d)) by {
            assert forall|i: int| 0 <= i < d.len() - 1 implies key_cmp((#[trigger] d[i]).0, d[i + 1].0) < 0 by {
                assert(d[i] == m[i] && d[i + 1] == m[i + 1]);
            }
        }
        lemma_ascending_all(d);
        assert forall|i: int, j: int| 0 <= i < j < m.len() implies key_cmp(
            (#[trigger] m[i]).0,
            (#[trigger] m[j]).0,
        ) < 0 by {
            if j < m.len() - 1 {
                assert(d[i] == m[i] && d[j] == m[j]);
            } else if i < j - 1 {
                assert(d[i] == m[i] && d[j - 1] == m[j - 1]);
                assert(key_cmp(m[j - 1].0, m[j].0) < 0);
                lemma_key_cmp_trans(m[i].0, m[j - 1].0, m[j].0);
            }
        }
    }
}

/// Inserting a new key adds exactly its pair.
proof fn lemma_ins_contents(m: Seq<(Seq<u8>, FrameV)>, k: Seq<u8>, v: FrameV)
    requires
        forall|i: int| 0 <= i < m.len() ==> (#[trigger] m[i]).0 != k,
    ensures
        forall|x: (Seq<u8>, FrameV)| #[trigger] ins(m, k, v).contains(x) <==> (m.contains(x) || x == (k, v)),
    decreases m.len(),
{
    let r = ins(m, k, v);
    if m.len() == 0 {
        assert forall|x: (Seq<u8>, FrameV)| #[trigger] r.contains(x) <==> (m.contains(x) || x == (k, v)) by {
            if x == (k, v) {
                assert(r[0] == x);
            }
        }
    } else if key_cmp(m.last().0, k) == 0 {
        lemma_key_cmp_zero(m.last().0, k);
        assert(m[m.len() - 1].0 != k);
    } else if key_cmp(m.last().0, k) < 0 {
        assert forall|x: (Seq<u8>, FrameV)| #[trigger] r.contains(x) <==> (m.contains(x) || x == (k, v)) by {
            if r.contains(x) {
                let i = choose|i: int| 0 <= i < r.len() && r[i] == x;
                if i < m.len() {
                    assert(m[i] == x);
                }
            }
            if m.contains(x) {
                let i = choose|i: int| 0 <= i < m.len() && m[i] == x;
                assert(r[i] == x);
            }
            if x == (k, v) {
                assert(r[m.len() as int] == x);
            }
        }
    } else {
        let d = m.drop_last();
        assert forall|i: int| 0 <= i < d.len() implies (#[trigger] d[i]).0 != k by {
            assert(d[i] == m[i]);
        }
        lemma_ins_contents(d, k, v);
        let r2 = ins(d, k, v);
        assert forall|x: (Seq<u8>, FrameV)| #[trigger] r.contains(x) <==> (m.contains(x) || x == (k, v)) by {
            if r.contains(x) {
                let i = choose|i: int| 0 <= i < r.len() && r[i] == x;
                if i < r2.len() {
                    assert(r2[i] == x);
                    assert(r2.contains(x));
                    if d.contains(x) {
                        let j = choose|j: int| 0 <= j < d.len() && d[j] == x;
                        assert(m[j] == x);
                    }
                } else {
                    assert(m[m.len() - 1] == x);
                }
            }
            if m.contains(x) {
                let i = choose|i: int| 0 <= i < m.len() && m[i] == x;
                if i < d.len() {
                    assert(d[i] == x);
                    assert(r2.contains(x));
                    let j = choose|j: int| 0 <= j < r2.len() && r2[j] == x;
                    assert(r[j] == x);
                } else {
                    assert(r[r2.len() as int] == x);
                }
            }
            if x == (k, v) {
                assert(r2.contains(x));
                let j = choose|j: int| 0 <= j < r2.len() && r2[j] == x;
                assert(r[j] == x);
            }
        }
    }
}

/// Sorting pairs with distinct keys keeps exactly those pairs.
pub proof fn lemma_sort_pairs_contents(m: Seq<(Seq<u8>, FrameV)>)
    requires
        unique_keys(m),
    ensures
        forall|x: (Seq<u8>, FrameV)| #[trigger] sort_pairs(m).contains(x) <==> m.contains(x),
    decreases m.len(),
{
    if m.len() > 0 {
        let d = m.drop_last();
        assert(unique_keys(d)) by {
            assert forall|i: int, j: int| 0 <= i < j < d.len() implies (#[trigger] d[i]).0 != (
            #[trigger] d[j]).0 by {
                assert(d[i] == m[i] && d[j] == m[j]);
            }
        }
        lemma_sort_pairs_contents(d);
        let sd = sort_pairs(d);
        let k = m.last().0;
        assert forall|i: int| 0 <= i < sd.len() implies (#[trigger] sd[i]).0 != k by {
            assert(sd.contains(sd[i]));
            let j = choose|j: int| 0 <= j < d.len() && d[j] == sd[i];
            assert(m[j] == d[j]);
            assert(m[j].0 != m[m.len() - 1].0);
        }
        lemma_ins_contents(sd, k, m.last().1);
        assert forall|x: (Seq<u8>, FrameV)| #[trigger] sort_pairs(m).contains(x) <==> m.contains(x) by {
            if m.contains(x) {
                let i = choose|i: int| 0 <= i < m.len() && m[i] == x;
                if i < d.len() {
                    assert(d[i] == x);
                    assert(d.contains(x));
                }
            }
            if d.contains(x) {
                let i = choose|i: int| 0 <= i < d.len() && d[i] == x;
                assert(m[i] == x);
            }
            if x == (k, m.last().1) {
                assert(m[m.len() - 1] == x);
            }
        }
    }
}

proof fn lemma_tail_in(a: Seq<(Seq<u8>, FrameV)>, b: Seq<(Seq<u8>, FrameV)>, x: (Seq<u8>, FrameV))
    requires
        a.len() > 0,
        b.len() > 0,
        a[0] == b[0],
        forall|i: int, j: int|
            0 <= i < j < a.len() ==> key_cmp((#[trigger] a[i]).0, (#[trigger] a[j]).0) < 0,
        forall|y: (Seq<u8>, FrameV)| #[trigger] a.contains(y) <==> b.contains(y),
        a.drop_first().contains(x),
    ensures
        b.drop_first().contains(x),
{
    let a2 = a.drop_first();
    let p = choose|p: int| 0 <= p < a2.len() && a2[p] == x;
    assert(a[p + 1] == x);
    assert(a.contains(x));
    assert(b.contains(x));
    let r = choose|r: int| 0 <= r < b.len() && b[r] == x;
    if r == 0 {
        assert(key_cmp(a[0].0, a[p + 1].0) < 0);
        lemma_key_cmp_refl(a[0].0);
    }
    assert(b.drop_first()[r - 1] == x);
}

proof fn lemma_tails_same_contents(a: Seq<(Seq<u8>, FrameV)>, b: Seq<(Seq<u8>, FrameV)>)
    requires
        a.len() > 0,
        b.len() > 0,
        a[0] == b[0],
        keys_ascending(a),
        keys_ascending(b),
        forall|y: (Seq<u8>, FrameV)| #[trigger] a.contains(y) <==> b.contains(y),
    ensures
        forall|x: (Seq<u8>, FrameV)| #[trigger] a.drop_first().contains(x) <==> b.drop_first().contains(x),
{
    lemma_ascending_all(a);
    lemma_ascending_all(b);
    assert forall|x: (Seq<u8>, FrameV)| #[trigger] a.drop_first().contains(x) <==> b.drop_first().contains(x) by {
        if a.drop_first().contains(x) {
            lemma_tail_in(a, b, x);
        }
        if b.drop_first().contains(x) {
            lemma_tail_in(b, a, x);
        }
    }
}

proof fn lemma_heads_equal(a: Seq<(Seq<u8>, FrameV)>, b: Seq<(Seq<u8>, FrameV)>)
    requires
        a.len() > 0,
        b.len() > 0,
        keys_ascending(a),
        keys_ascending(b),
        forall|y: (Seq<u8>, FrameV)| #[trigger] a.contains(y) <==> b.contains(y),
    ensures
        a[0] == b[0],
{
    lemma_ascending_all(a);
    lemma_ascending_all(b);
    assert(a.contains(a[0]));
    assert(b.contains(b[0]));
    assert(b.contains(a[0]));
    assert(a.contains(b[0]));
    let j = choose|j: int| 0 <= j < b.len() && b[j] == a[0];
    let i = choose|i: int| 0 <= i < a.len() && a[i] == b[0];
    if j > 0 {
        assert(key_cmp(b[0].0, b[j].0) < 0);
        lemma_key_cmp_refl(a[0].0);
        if i > 0 {
            assert(key_cmp(a[0].0, a[i].0) < 0);
            lemma_key_cmp_trans(a[0].0, a[i].0, a[0].0);
        }
    }
}

proof fn lemma_empty_same_contents(a: Seq<(Seq<u8>, FrameV)>, b: Seq<(Seq<u8>, FrameV)>)
    requires
        a.len() == 0 || b.len() == 0,
        forall|x: (Seq<u8>, FrameV)| #[trigger] a.contains(x) <==> b.contains(x),
    ensures
        a == b,
{
    if b.len() > 0 {
        assert(b.contains(b[0]));
        assert(a.contains(b[0]));
    }
    if a.len() > 0 {
        assert(a.contains(a[0]));
        assert(b.contains(a[0]));
    }
    assert(a =~= b);
}

proof fn lemma_ascending_tail(a: Seq<(Seq<u8>, FrameV)>)
    requires
        a.len() > 0,
        keys_ascending(a),
    ensures
        keys_ascending(a.drop_first()),
{
    let a2 = a.drop_first();
    assert forall|x: int| 0 <= x < a2.len() - 1 implies key_cmp((#[trigger] a2[x]).0, a2[x + 1].0) < 0 by {
        assert(a2[x] == a[x + 1] && a2[x + 1] == a[x + 2]);
    }
}

/// Two sequences with strictly ascending keys that hold the same pairs are equal.
#[verifier::spinoff_prover]
#[verifier::rlimit(100)]
pub proof fn lemma_ascending_same_contents(a: Seq<(Seq<u8>, FrameV)>, b: Seq<(Seq<u8>, FrameV)>)
    requires
        keys_ascending(a),
        keys_ascending(b),
        forall|x: (Seq<u8>, FrameV)| #[trigger] a.contains(x) <==> b.contains(x),
    ensures
        a == b,
    decreases a.len(),
{
    if a.len() == 0 || b.len() == 0 {
        lemma_empty_same_contents(a, b);
    } else {
        lemma_heads_equal(a, b);
        lemma_ascending_tail(a);
        lemma_ascending_tail(b);
        lemma_tails_same_contents(a, b);
        lemma_ascending_same_contents(a.drop_first(), b.drop_first());
        assert(a =~= seq![a[0]] + a.drop_first());
        assert(b =~= seq![b[0]] + b.drop_first());
    }
}

/// Sorting pairs with distinct keys gives the same sequence for any order in
/// which the same pairs come.
pub proof fn lemma_sort_pairs_order_independent(m1: Seq<(Seq<u8>, FrameV)>, m2: Seq<(Seq<u8>, FrameV)>)
    requires
        unique_keys(m1),
        unique_keys(m2),
        forall|x: (Seq<u8>, FrameV)| #[trigger] m1.contains(x) <==> m2.contains(x),
    ensures
        sort_pairs(m1) == sort_pairs(m2),
{
    lemma_sort_pairs_contents(m1);
    lemma_sort_pairs_contents(m2);
    lemma_sort_pairs_ascending(m1);
    lemma_sort_pairs_ascending(m2);
    assert forall|x: (Seq<u8>, FrameV)| #[trigger] sort_pairs(m1).contains(x) <==> sort_pairs(m2).contains(x) by {
        assert(sort_pairs(m1).contains(x) <==> m1.contains(x));
        assert(sort_pairs(m2).contains(x) <==> m2.contains(x));
    }
    lemma_ascending_same_contents(sort_pairs(m1), sort_pairs(m2));
}

} // verus!

verus! {

proof fn lemma_keyed_unique(f: Seq<(Seq<char>, FrameV)>)
    requires
        unique_fields(f),
    ensures
        unique_keys(keyed(f)),
{
    let m = keyed(f);
    assert forall|i: int, j: int| 0 <= i < j < m.len() implies (#[trigger] m[i]).0 != (
    #[trigger] m[j]).0 by {
        encode_utf8_decode_utf8(f[i].0);
        encode_utf8_decode_utf8(f[j].0);
        assert(f[i].0 != f[j].0);
    }
}

proof fn lemma_keyed_contents(f1: Seq<(Seq<char>, FrameV)>, f2: Seq<(Seq<char>, FrameV)>, x: (Seq<u8>, FrameV))
    requires
        forall|y: (Seq<char>, FrameV)| #[trigger] f1.contains(y) <==> f2.contains(y),
        keyed(f1).contains(x),
    ensures
        keyed(f2).contains(x),
{
    let i = choose|i: int| 0 <= i < keyed(f1).len() && keyed(f1)[i] == x;
    assert(f1.contains(f1[i]));
    assert(f2.contains(f1[i]));
    let j = choose|j: int| 0 <= j < f2.len() && f2[j] == f1[i];
    assert(keyed(f2)[j] == x);
}

/// Reading all fields of a hash with the sort option gives the same reply for
/// any order in which the same fields were written.
pub proof fn lemma_hgetall_sorted_order_independent(
    strings: Map<Seq<char>, FrameV>,
    h1: Map<Seq<char>, Seq<(Seq<char>, FrameV)>>,
    h2: Map<Seq<char>, Seq<(Seq<char>, FrameV)>>,
    sets: Map<Seq<char>, Set<Seq<char>>>,
    key: Seq<char>,
)
    requires
        h1.contains_key(key),
        h2.contains_key(key),
        unique_fields(h1[key]),
        unique_fields(h2[key]),
        forall|y: (Seq<char>, FrameV)| #[trigger] h1[key].contains(y) <==> h2[key].contains(y),
    ensures
        reply(CommandV::HGetAll(key, true), strings, h1, sets) == reply(
            CommandV::HGetAll(key, true),
            strings,
            h2,
            sets,
        ),
{
    let f1 = h1[key];
    let f2 = h2[key];
    lemma_keyed_unique(f1);
    lemma_keyed_unique(f2);
    assert forall|x: (Seq<u8>, FrameV)| #[trigger] keyed(f1).contains(x) <==> keyed(f2).contains(x) by {
        if keyed(f1).contains(x) {
            lemma_keyed_contents(f1, f2, x);
        }
        if keyed(f2).contains(x) {
            lemma_keyed_contents(f2, f1, x);
        }
    }
    lemma_sort_pairs_order_independent(keyed(f1), keyed(f2));
}

} // verus!
