use vstd::prelude::*;

use crate::frame::{FrameV, RespError};
use crate::grammar::{
    crlf_at, frame_length, ins, known_prefix, lemma_parse_at_bounds, lemma_parse_items_bounds,
    lemma_parse_pairs_bounds, line_end, parse, parse_at, parse_int, parse_items, parse_pairs,
    DOLLAR, PERCENT, STAR,
};

verus! {

/// `t` holds the first `m` bytes of `s`.
pub open spec fn agree(s: Seq<u8>, t: Seq<u8>, m: int) -> bool {
    &&& 0 <= m <= s.len()
    &&& m <= t.len()
    &&& forall|j: int| 0 <= j < m ==> #[trigger] t[j] == s[j]
}

proof fn lemma_line_end_facts(s: Seq<u8>, i: int)
    ensures
        line_end(s, i) is Some ==> {
            let e = line_end(s, i)->Some_0;
            &&& 0 <= i <= e
            &&& crlf_at(s, e)
            &&& forall|j: int| i <= j < e ==> !crlf_at(s, j)
        },
    decreases s.len() - i,
{
    if i >= 0 && i + 1 < s.len() && !crlf_at(s, i) {
        lemma_line_end_facts(s, i + 1);
    }
}

proof fn lemma_line_end_found(s: Seq<u8>, i: int, e: int)
    requires
        0 <= i <= e,
        crlf_at(s, e),
        forall|j: int| i <= j < e ==> !crlf_at(s, j),
    ensures
        line_end(s, i) == Some(e),
    decreases e - i,
{
    if i < e {
        lemma_line_end_found(s, i + 1, e);
    }
}

proof fn lemma_line_end_absent(s: Seq<u8>, i: int)
    requires
        0 <= i,
        forall|j: int| i <= j ==> !crlf_at(s, j),
    ensures
        line_end(s, i) is None,
    decreases s.len() - i,
{
    if i + 1 < s.len() {
        lemma_line_end_absent(s, i + 1);
    }
}

/// A line end found in `s` is found in any `t` that holds `s` up to and
/// including that CRLF.
proof fn lemma_line_end_kept(s: Seq<u8>, t: Seq<u8>, i: int, e: int)
    requires
        line_end(s, i) == Some(e),
        agree(s, t, e + 2),
    ensures
        line_end(t, i) == Some(e),
{
    lemma_line_end_facts(s, i);
    assert(t[e] == s[e] && t[e + 1] == s[e + 1]);
    assert forall|j: int| i <= j < e implies !crlf_at(t, j) by {
        assert(!crlf_at(s, j));
        assert(0 <= j && j + 1 < e + 2);
        assert(t[j] == s[j] && t[j + 1] == s[j + 1]);
    }
    lemma_line_end_found(t, i, e);
}

/// A line whose CRLF is cut off has no line end yet.
proof fn lemma_line_end_cut(s: Seq<u8>, t: Seq<u8>, i: int, e: int)
    requires
        0 <= i,
        line_end(s, i) == Some(e),
        t.len() <= e + 1,
        agree(s, t, t.len() as int),
    ensures
        line_end(t, i) is None,
{
    lemma_line_end_facts(s, i);
    assert forall|j: int| i <= j implies !crlf_at(t, j) by {
        if crlf_at(t, j) {
            assert(t[j] == s[j] && t[j + 1] == s[j + 1]);
            assert(crlf_at(s, j));
        }
    }
    lemma_line_end_absent(t, i);
}

/// A frame reads the same from any bytes that hold it whole.
pub proof fn lemma_parse_local(s: Seq<u8>, t: Seq<u8>, p: int)
    requires
        parse_at(s, p) is Ok,
        agree(s, t, parse_at(s, p)->Ok_0.1),
    ensures
        parse_at(t, p) == parse_at(s, p),
    decreases s.len() - p, 0int, 0int,
{
    let q = parse_at(s, p)->Ok_0.1;
    lemma_parse_at_bounds(s, p);
    let e = line_end(s, p + 1)->Some_0;
    let h = e + 2;
    lemma_line_end_facts(s, p + 1);
    assert(t[p] == s[p]);
    let n = parse_int(s.subrange(p + 1, e));
    if s[p] == STAR && n is Some && n->Some_0 >= 0 {
        lemma_parse_items_bounds(s, h, n->Some_0 as nat);
    }
    if s[p] == PERCENT && n is Some && n->Some_0 > 0 {
        lemma_parse_pairs_bounds(s, h, (n->Some_0 / 2) as nat, Seq::empty());
    }
    assert(h <= q);
    lemma_line_end_kept(s, t, p + 1, e);
    assert(t.subrange(p + 1, e) =~= s.subrange(p + 1, e));
    if s[p] == DOLLAR && n is Some && n->Some_0 >= 0 {
        let k = n->Some_0;
        assert(t[h + k] == s[h + k] && t[h + k + 1] == s[h + k + 1]);
        assert(t.subrange(h, h + k) =~= s.subrange(h, h + k));
    }
    if s[p] == STAR && n is Some && n->Some_0 >= 0 {
        lemma_items_local(s, t, h, n->Some_0 as nat);
    }
    if s[p] == PERCENT && n is Some && n->Some_0 > 0 && n->Some_0 % 2 == 0 {
        lemma_pairs_local(s, t, h, (n->Some_0 / 2) as nat, Seq::empty());
    }
}

proof fn lemma_items_local(s: Seq<u8>, t: Seq<u8>, q: int, k: nat)
    requires
        parse_items(s, q, k) is Ok,
        agree(s, t, parse_items(s, q, k)->Ok_0.1),
        0 <= q,
    ensures
        parse_items(t, q, k) == parse_items(s, q, k),
    decreases s.len() - q, 1int, k,
{
    if k > 0 {
        let q2 = parse_at(s, q)->Ok_0.1;
        lemma_parse_items_bounds(s, q2, (k - 1) as nat);
        lemma_parse_local(s, t, q);
        lemma_items_local(s, t, q2, (k - 1) as nat);
    }
}

proof fn lemma_pairs_local(s: Seq<u8>, t: Seq<u8>, q: int, k: nat, acc: Seq<(Seq<u8>, FrameV)>)
    requires
        parse_pairs(s, q, k, acc) is Ok,
        agree(s, t, parse_pairs(s, q, k, acc)->Ok_0.1),
        0 <= q,
    ensures
        parse_pairs(t, q, k, acc) == parse_pairs(s, q, k, acc),
    decreases s.len() - q, 1int, k,
{
    if k > 0 {
        let e = line_end(s, q + 1)->Some_0;
        let r = parse_at(s, e + 2)->Ok_0;
        let q2 = r.1;
        let acc2 = ins(acc, s.subrange(q + 1, e), r.0);
        lemma_parse_pairs_bounds(s, q2, (k - 1) as nat, acc2);
        lemma_line_end_facts(s, q + 1);
        assert(t[q] == s[q]);
        lemma_line_end_kept(s, t, q + 1, e);
        lemma_parse_local(s, t, e + 2);
        assert(t.subrange(q + 1, e) =~= s.subrange(q + 1, e));
        lemma_pairs_local(s, t, q2, (k - 1) as nat, acc2);
    }
}

/// Bytes that stop before the end of a frame read as not yet complete.
pub proof fn lemma_parse_cut_any(s: Seq<u8>, t: Seq<u8>, p: int)
    requires
        parse_at(s, p) is Ok,
        0 <= p <= t.len(),
        t.len() < parse_at(s, p)->Ok_0.1,
        agree(s, t, t.len() as int),
    ensures
        parse_at(t, p) == Err::<(FrameV, int), RespError>(RespError::NotComplete),
    decreases s.len() - p, 0int, 0int,
{
    if p == t.len() {
        return;
    }
    let q = parse_at(s, p)->Ok_0.1;
    lemma_parse_at_bounds(s, p);
    let e = line_end(s, p + 1)->Some_0;
    let h = e + 2;
    lemma_line_end_facts(s, p + 1);
    assert(t[p] == s[p]);
    assert(known_prefix(s[p]));
    if t.len() <= e + 1 {
        lemma_line_end_cut(s, t, p + 1, e);
        return;
    }
    lemma_line_end_kept(s, t, p + 1, e);
    assert(t.subrange(p + 1, e) =~= s.subrange(p + 1, e));
    let n = parse_int(s.subrange(p + 1, e));
    if s[p] == STAR && n is Some && n->Some_0 >= 0 {
        lemma_parse_items_bounds(s, h, n->Some_0 as nat);
        lemma_items_cut_any(s, t, h, n->Some_0 as nat);
    }
    if s[p] == PERCENT && n is Some && n->Some_0 > 0 && n->Some_0 % 2 == 0 {
        lemma_parse_pairs_bounds(s, h, (n->Some_0 / 2) as nat, Seq::empty());
        lemma_pairs_cut_any(s, t, h, (n->Some_0 / 2) as nat, Seq::empty());
    }
}

proof fn lemma_items_cut_any(s: Seq<u8>, t: Seq<u8>, q: int, k: nat)
    requires
        parse_items(s, q, k) is Ok,
        0 <= q <= t.len(),
        t.len() < parse_items(s, q, k)->Ok_0.1,
        agree(s, t, t.len() as int),
    ensures
        parse_items(t, q, k) == Err::<(Seq<FrameV>, int), RespError>(RespError::NotComplete),
    decreases s.len() - q, 1int, k,
{
    if k > 0 {
        let q2 = parse_at(s, q)->Ok_0.1;
        if t.len() < q2 {
            lemma_parse_cut_any(s, t, q);
        } else {
            assert(agree(s, t, q2));
            lemma_parse_local(s, t, q);
            lemma_items_cut_any(s, t, q2, (k - 1) as nat);
        }
    }
}

proof fn lemma_pairs_cut_any(s: Seq<u8>, t: Seq<u8>, q: int, k: nat, acc: Seq<(Seq<u8>, FrameV)>)
    requires
        parse_pairs(s, q, k, acc) is Ok,
        0 <= q <= t.len(),
        t.len() < parse_pairs(s, q, k, acc)->Ok_0.1,
        agree(s, t, t.len() as int),
    ensures
        parse_pairs(t, q, k, acc) == Err::<(Seq<(Seq<u8>, FrameV)>, int), RespError>(
            RespError::NotComplete,
        ),
    decreases s.len() - q, 1int, k,
{
    if k > 0 && q < t.len() {
        assert(t[q] == s[q]);
        let e = line_end(s, q + 1)->Some_0;
        lemma_line_end_facts(s, q + 1);
        if t.len() <= e + 1 {
            lemma_line_end_cut(s, t, q + 1, e);
        } else {
            lemma_line_end_kept(s, t, q + 1, e);
            let r = parse_at(s, e + 2)->Ok_0;
            let q2 = r.1;
            if t.len() < q2 {
                lemma_parse_cut_any(s, t, e + 2);
            } else {
                assert(agree(s, t, q2));
                lemma_parse_local(s, t, e + 2);
                assert(t.subrange(q + 1, e) =~= s.subrange(q + 1, e));
                lemma_pairs_cut_any(s, t, q2, (k - 1) as nat, ins(acc, s.subrange(q + 1, e), r.0));
            }
        }
    }
}

/// Any complete frame, cut at any byte boundary before its end, reads as not
/// yet complete, by the length scan and by decoding alike.
pub proof fn lemma_cut_frame_not_complete(s: Seq<u8>, k: int)
    requires
        parse(s) is Ok,
        0 <= k < parse(s)->Ok_0.1,
    ensures
        parse(s.subrange(0, k)) == Err::<(FrameV, int), RespError>(RespError::NotComplete),
        frame_length(s.subrange(0, k)) == Err::<int, RespError>(RespError::NotComplete),
{
    lemma_parse_at_bounds(s, 0);
    let t = s.subrange(0, k);
    assert(agree(s, t, k));
    lemma_parse_cut_any(s, t, 0);
}

} // verus!
