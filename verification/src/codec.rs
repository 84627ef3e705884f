//! The snapshot cache format: a compact, lossless binary encoding of an
//! ordered issue set.  Lengths are 8-byte little-endian counts, characters
//! are 4-byte little-endian scalar values, optional fields and the flag
//! field carry a one-byte tag.  Decoding accepts exactly the encodings and
//! returns the encoded value; the round-trip law is proved below.

use vstd::prelude::*;
use vstd::bytes::{
    spec_u64_to_le_bytes, spec_u64_from_le_bytes, lemma_auto_spec_u64_to_from_le_bytes,
    spec_u32_to_le_bytes, spec_u32_from_le_bytes, lemma_auto_spec_u32_to_from_le_bytes,
    u64_to_le_bytes, u64_from_le_bytes, u32_to_le_bytes, u32_from_le_bytes,
};
use vstd::slice::slice_subrange;
use vstd::utf8::{is_scalar, char_is_scalar, char_u32_cast};
use crate::issues::{Flagged, FlaggedView, FlagField, FlagFieldView, IssueRecord, IssueView};

verus! {

// ---------------------------------------------------------------------------
// Trusted standard-library wrappers
// ---------------------------------------------------------------------------

/// Relies on char::from_u32: it returns Some exactly on Unicode scalar
/// values, and the returned char casts back to the given value.
#[verifier::external_body]
fn char_from_u32(u: u32) -> (r: Option<char>)
    ensures
        r matches Some(c) ==> c as u32 == u,
        is_scalar(u) ==> r is Some,
{
    char::from_u32(u)
}

/// Relies on String::push: it appends the given character to the end of the
/// string.
#[verifier::external_body]
fn push_char(s: &mut String, c: char)
    ensures
        final(s)@ == old(s)@.push(c),
{
    s.push(c);
}

// ---------------------------------------------------------------------------
// The encoding, as a spec-level function of the snapshot view
// ---------------------------------------------------------------------------

pub open spec fn enc_u64(v: u64) -> Seq<u8> {
    spec_u64_to_le_bytes(v)
}

pub open spec fn enc_char(c: char) -> Seq<u8> {
    spec_u32_to_le_bytes(c as u32)
}

pub open spec fn enc_chars(s: Seq<char>) -> Seq<u8>
    decreases s.len(),
{
    if s.len() == 0 {
        Seq::empty()
    } else {
        enc_char(s[0]) + enc_chars(s.drop_first())
    }
}

pub open spec fn enc_str(s: Seq<char>) -> Seq<u8> {
    enc_u64(s.len() as u64) + enc_chars(s)
}

pub open spec fn enc_opt_str(o: Option<Seq<char>>) -> Seq<u8> {
    match o {
        None => seq![0u8],
        Some(s) => seq![1u8] + enc_str(s),
    }
}

pub open spec fn enc_bool(b: bool) -> Seq<u8> {
    if b {
        seq![1u8]
    } else {
        seq![0u8]
    }
}

pub open spec fn enc_flagged(f: FlaggedView) -> Seq<u8> {
    enc_bool(f.disabled) + enc_str(f.id) + enc_str(f.self_link) + enc_str(f.value)
}

pub open spec fn enc_flaggeds(s: Seq<FlaggedView>) -> Seq<u8>
    decreases s.len(),
{
    if s.len() == 0 {
        Seq::empty()
    } else {
        enc_flagged(s[0]) + enc_flaggeds(s.drop_first())
    }
}

pub open spec fn enc_strs(s: Seq<Seq<char>>) -> Seq<u8>
    decreases s.len(),
{
    if s.len() == 0 {
        Seq::empty()
    } else {
        enc_str(s[0]) + enc_strs(s.drop_first())
    }
}

pub open spec fn enc_flag_field(f: FlagFieldView) -> Seq<u8> {
    match f {
        FlagFieldView::Absent => seq![0u8],
        FlagFieldView::Entries(es) => seq![1u8] + enc_u64(es.len() as u64) + enc_flaggeds(es),
        FlagFieldView::Malformed => seq![2u8],
    }
}

pub open spec fn enc_record(r: IssueView) -> Seq<u8> {
    enc_str(r.key) + enc_opt_str(r.summary) + enc_opt_str(r.status_name) + enc_str(
        r.issue_type_name,
    ) + enc_u64(r.components.len() as u64) + enc_strs(r.components) + enc_flag_field(r.flag_field)
}

pub open spec fn enc_records(s: Seq<IssueView>) -> Seq<u8>
    decreases s.len(),
{
    if s.len() == 0 {
        Seq::empty()
    } else {
        enc_record(s[0]) + enc_records(s.drop_first())
    }
}

pub open spec fn enc_snapshot(s: Seq<IssueView>) -> Seq<u8> {
    enc_u64(s.len() as u64) + enc_records(s)
}

// ---------------------------------------------------------------------------
// Encodable views: every length must fit the 8-byte count
// ---------------------------------------------------------------------------

pub open spec fn wf_str(s: Seq<char>) -> bool {
    s.len() <= u64::MAX
}

pub open spec fn wf_opt_str(o: Option<Seq<char>>) -> bool {
    match o {
        None => true,
        Some(s) => wf_str(s),
    }
}

pub open spec fn wf_flagged(f: FlaggedView) -> bool {
    wf_str(f.id) && wf_str(f.self_link) && wf_str(f.value)
}

pub open spec fn wf_flag_field(f: FlagFieldView) -> bool {
    match f {
        FlagFieldView::Entries(es) => es.len() <= u64::MAX && forall|i: int|
            0 <= i < es.len() ==> wf_flagged(#[trigger] es[i]),
        _ => true,
    }
}

pub open spec fn wf_record(r: IssueView) -> bool {
    &&& wf_str(r.key)
    &&& wf_opt_str(r.summary)
    &&& wf_opt_str(r.status_name)
    &&& wf_str(r.issue_type_name)
    &&& r.components.len() <= u64::MAX
    &&& forall|i: int| 0 <= i < r.components.len() ==> wf_str(#[trigger] r.components[i])
    &&& wf_flag_field(r.flag_field)
}

pub open spec fn wf_snapshot(s: Seq<IssueView>) -> bool {
    s.len() <= u64::MAX && forall|i: int| 0 <= i < s.len() ==> wf_record(#[trigger] s[i])
}

// ---------------------------------------------------------------------------
// The decoder, as a spec-level function of the bytes
// ---------------------------------------------------------------------------

pub open spec fn sdec_u64(b: Seq<u8>, pos: int) -> Option<(u64, int)> {
    if 0 <= pos && pos + 8 <= b.len() {
        Some((spec_u64_from_le_bytes(b.subrange(pos, pos + 8)), pos + 8))
    } else {
        None
    }
}

pub open spec fn sdec_byte(b: Seq<u8>, pos: int) -> Option<(u8, int)> {
    if 0 <= pos && pos + 1 <= b.len() {
        Some((b[pos], pos + 1))
    } else {
        None
    }
}

pub open spec fn sdec_char(b: Seq<u8>, pos: int) -> Option<(char, int)> {
    if 0 <= pos && pos + 4 <= b.len() {
        let u = spec_u32_from_le_bytes(b.subrange(pos, pos + 4));
        if is_scalar(u) {
            Some((u as char, pos + 4))
        } else {
            None
        }
    } else {
        None
    }
}

pub open spec fn sdec_chars(b: Seq<u8>, pos: int, n: nat, acc: Seq<char>) -> Option<
    (Seq<char>, int),
>
    decreases n,
{
    if n == 0 {
        Some((acc, pos))
    } else {
        match sdec_char(b, pos) {
            None => None,
            Some((c, p)) => sdec_chars(b, p, (n - 1) as nat, acc.push(c)),
        }
    }
}

pub open spec fn sdec_str(b: Seq<u8>, pos: int) -> Option<(Seq<char>, int)> {
    match sdec_u64(b, pos) {
        None => None,
        Some((n, p)) => sdec_chars(b, p, n as nat, Seq::empty()),
    }
}

pub open spec fn sdec_opt_str(b: Seq<u8>, pos: int) -> Option<(Option<Seq<char>>, int)> {
    match sdec_byte(b, pos) {
        None => None,
        Some((tag, p)) => if tag == 0 {
            Some((None, p))
        } else if tag == 1 {
            match sdec_str(b, p) {
                None => None,
                Some((s, p2)) => Some((Some(s), p2)),
            }
        } else {
            None
        },
    }
}

pub open spec fn sdec_bool(b: Seq<u8>, pos: int) -> Option<(bool, int)> {
    match sdec_byte(b, pos) {
        None => None,
        Some((tag, p)) => if tag == 0 {
            Some((false, p))
        } else if tag == 1 {
            Some((true, p))
        } else {
            None
        },
    }
}

pub open spec fn sdec_flagged(b: Seq<u8>, pos: int) -> Option<(FlaggedView, int)> {
    match sdec_bool(b, pos) {
        None => None,
        Some((d, p1)) => match sdec_str(b, p1) {
            None => None,
            Some((id, p2)) => match sdec_str(b, p2) {
                None => None,
                Some((sl, p3)) => match sdec_str(b, p3) {
                    None => None,
                    Some((v, p4)) => Some(
                        (FlaggedView { disabled: d, id, self_link: sl, value: v }, p4),
                    ),
                },
            },
        },
    }
}

pub open spec fn sdec_flaggeds(b: Seq<u8>, pos: int, n: nat, acc: Seq<FlaggedView>) -> Option<
    (Seq<FlaggedView>, int),
>
    decreases n,
{
    if n == 0 {
        Some((acc, pos))
    } else {
        match sdec_flagged(b, pos) {
            None => None,
            Some((f, p)) => sdec_flaggeds(b, p, (n - 1) as nat, acc.push(f)),
        }
    }
}

pub open spec fn sdec_strs(b: Seq<u8>, pos: int, n: nat, acc: Seq<Seq<char>>) -> Option<
    (Seq<Seq<char>>, int),
>
    decreases n,
{
    if n == 0 {
        Some((acc, pos))
    } else {
        match sdec_str(b, pos) {
            None => None,
            Some((s, p)) => sdec_strs(b, p, (n - 1) as nat, acc.push(s)),
        }
    }
}

pub open spec fn sdec_flag_field(b: Seq<u8>, pos: int) -> Option<(FlagFieldView, int)> {
    match sdec_byte(b, pos) {
        None => None,
        Some((tag, p)) => if tag == 0 {
            Some((FlagFieldView::Absent, p))
        } else if tag == 1 {
            match sdec_u64(b, p) {
                None => None,
                Some((n, p2)) => match sdec_flaggeds(b, p2, n as nat, Seq::empty()) {
                    None => None,
                    Some((es, p3)) => Some((FlagFieldView::Entries(es), p3)),
                },
            }
        } else if tag == 2 {
            Some((FlagFieldView::Malformed, p))
        } else {
            None
        },
    }
}

pub open spec fn sdec_record(b: Seq<u8>, pos: int) -> Option<(IssueView, int)> {
    match sdec_str(b, pos) {
        None => None,
        Some((key, p1)) => match sdec_opt_str(b, p1) {
            None => None,
            Some((summary, p2)) => match sdec_opt_str(b, p2) {
                None => None,
                Some((status_name, p3)) => match sdec_str(b, p3) {
                    None => None,
                    Some((ty, p4)) => match sdec_u64(b, p4) {
                        None => None,
                        Some((n, p5)) => match sdec_strs(b, p5, n as nat, Seq::empty()) {
                            None => None,
                            Some((comps, p6)) => match sdec_flag_field(b, p6) {
                                None => None,
                                Some((ff, p7)) => Some(
                                    (
                                        IssueView {
                                            key,
                                            summary,
                                            status_name,
                                            issue_type_name: ty,
                                            components: comps,
                                            flag_field: ff,
                                        },
                                        p7,
                                    ),
                                ),
                            },
                        },
                    },
                },
            },
        },
    }
}

pub open spec fn sdec_records(b: Seq<u8>, pos: int, n: nat, acc: Seq<IssueView>) -> Option<
    (Seq<IssueView>, int),
>
    decreases n,
{
    if n == 0 {
        Some((acc, pos))
    } else {
        match sdec_record(b, pos) {
            None => None,
            Some((r, p)) => sdec_records(b, p, (n - 1) as nat, acc.push(r)),
        }
    }
}

/// The decoded snapshot: defined exactly on the byte strings that are an
/// encoding of a snapshot with nothing following it.
pub open spec fn sdec_snapshot(b: Seq<u8>) -> Option<Seq<IssueView>> {
    match sdec_u64(b, 0) {
        None => None,
        Some((n, p)) => match sdec_records(b, p, n as nat, Seq::empty()) {
            None => None,
            Some((s, end)) => if end == b.len() {
                Some(s)
            } else {
                None
            },
        },
    }
}

// ---------------------------------------------------------------------------
// The round-trip law: decoding an encoding yields the encoded snapshot
// ---------------------------------------------------------------------------

/// The bytes of `b` from `pos` on.
pub open spec fn tail(b: Seq<u8>, pos: int) -> Seq<u8> {
    b.subrange(pos, b.len() as int)
}

proof fn lemma_tail_split(b: Seq<u8>, pos: int, a: Seq<u8>, rest: Seq<u8>)
    requires
        0 <= pos <= b.len(),
        tail(b, pos) == a + rest,
    ensures
        pos + a.len() <= b.len(),
        tail(b, pos + a.len()) == rest,
        b.subrange(pos, pos + a.len()) == a,
{
    assert(tail(b, pos).len() == b.len() - pos);
    assert(b.subrange(pos, pos + a.len()) =~= a) by {
        assert(forall|i: int| 0 <= i < a.len() ==> b.subrange(pos, b.len() as int)[i] == (a
            + rest)[i]);
    }
    assert(tail(b, pos + a.len()) =~= rest) by {
        assert forall|i: int| 0 <= i < rest.len() implies #[trigger] tail(b, pos + a.len())[i]
            == rest[i] by {
            assert(b.subrange(pos, b.len() as int)[i + a.len()] == (a + rest)[i + a.len()]);
        }
    }
}

proof fn lemma_rt_u64(b: Seq<u8>, pos: int, v: u64, rest: Seq<u8>)
    requires
        0 <= pos <= b.len(),
        tail(b, pos) == enc_u64(v) + rest,
    ensures
        sdec_u64(b, pos) == Some((v, pos + 8)),
        pos + 8 <= b.len(),
        tail(b, pos + 8) == rest,
{
    lemma_auto_spec_u64_to_from_le_bytes();
    lemma_tail_split(b, pos, enc_u64(v), rest);
}

proof fn lemma_rt_byte(b: Seq<u8>, pos: int, t: u8, rest: Seq<u8>)
    requires
        0 <= pos <= b.len(),
        tail(b, pos) == seq![t] + rest,
    ensures
        sdec_byte(b, pos) == Some((t, pos + 1)),
        pos + 1 <= b.len(),
        tail(b, pos + 1) == rest,
{
    lemma_tail_split(b, pos, seq![t], rest);
    assert(b[pos] == b.subrange(pos, pos + 1)[0]);
}

proof fn lemma_rt_char(b: Seq<u8>, pos: int, c: char, rest: Seq<u8>)
    requires
        0 <= pos <= b.len(),
        tail(b, pos) == enc_char(c) + rest,
    ensures
        sdec_char(b, pos) == Some((c, pos + 4)),
        pos + 4 <= b.len(),
        tail(b, pos + 4) == rest,
{
    lemma_auto_spec_u32_to_from_le_bytes();
    lemma_tail_split(b, pos, enc_char(c), rest);
    let u = spec_u32_from_le_bytes(b.subrange(pos, pos + 4));
    assert(u == c as u32);
    char_is_scalar(c);
    char_u32_cast(c, u);
}

proof fn lemma_rt_chars(b: Seq<u8>, pos: int, s: Seq<char>, rest: Seq<u8>, acc: Seq<char>)
    requires
        0 <= pos <= b.len(),
        tail(b, pos) == enc_chars(s) + rest,
    ensures
        sdec_chars(b, pos, s.len(), acc) == Some((acc + s, pos + enc_chars(s).len())),
        pos + enc_chars(s).len() <= b.len(),
        tail(b, pos + enc_chars(s).len()) == rest,
    decreases s.len(),
{
    if s.len() == 0 {
        assert(enc_chars(s) + rest =~= rest);
        assert(acc + s =~= acc);
    } else {
        let mid = enc_chars(s.drop_first()) + rest;
        assert(tail(b, pos) =~= enc_char(s[0]) + mid);
        lemma_rt_char(b, pos, s[0], mid);
        lemma_rt_chars(b, pos + 4, s.drop_first(), rest, acc.push(s[0]));
        assert(acc.push(s[0]) + s.drop_first() =~= acc + s);
    }
}

proof fn lemma_rt_str(b: Seq<u8>, pos: int, s: Seq<char>, rest: Seq<u8>)
    requires
        0 <= pos <= b.len(),
        wf_str(s),
        tail(b, pos) == enc_str(s) + rest,
    ensures
        sdec_str(b, pos) == Some((s, pos + enc_str(s).len())),
        pos + enc_str(s).len() <= b.len(),
        tail(b, pos + enc_str(s).len()) == rest,
{
    let len = s.len() as u64;
    let mid = enc_chars(s) + rest;
    assert(tail(b, pos) =~= enc_u64(len) + mid);
    lemma_rt_u64(b, pos, len, mid);
    lemma_rt_chars(b, pos + 8, s, rest, Seq::empty());
    assert(len as nat == s.len());
    assert(Seq::empty() + s =~= s);
}

proof fn lemma_rt_bool(b: Seq<u8>, pos: int, v: bool, rest: Seq<u8>)
    requires
        0 <= pos <= b.len(),
        tail(b, pos) == enc_bool(v) + rest,
    ensures
        sdec_bool(b, pos) == Some((v, pos + 1)),
        pos + 1 <= b.len(),
        tail(b, pos + 1) == rest,
{
    if v {
        lemma_rt_byte(b, pos, 1u8, rest);
    } else {
        lemma_rt_byte(b, pos, 0u8, rest);
    }
}

proof fn lemma_rt_opt_str(b: Seq<u8>, pos: int, o: Option<Seq<char>>, rest: Seq<u8>)
    requires
        0 <= pos <= b.len(),
        wf_opt_str(o),
        tail(b, pos) == enc_opt_str(o) + rest,
    ensures
        sdec_opt_str(b, pos) == Some((o, pos + enc_opt_str(o).len())),
        pos + enc_opt_str(o).len() <= b.len(),
        tail(b, pos + enc_opt_str(o).len()) == rest,
{
    match o {
        None => {
            assert(tail(b, pos) =~= seq![0u8] + rest);
            lemma_rt_byte(b, pos, 0u8, rest);
        },
        Some(s) => {
            let mid = enc_str(s) + rest;
            assert(tail(b, pos) =~= seq![1u8] + mid);
            lemma_rt_byte(b, pos, 1u8, mid);
            lemma_rt_str(b, pos + 1, s, rest);
            assert(enc_opt_str(o).len() == 1 + enc_str(s).len());
        },
    }
}

proof fn lemma_rt_flagged(b: Seq<u8>, pos: int, f: FlaggedView, rest: Seq<u8>)
    requires
        0 <= pos <= b.len(),
        wf_flagged(f),
        tail(b, pos) == enc_flagged(f) + rest,
    ensures
        sdec_flagged(b, pos) == Some((f, pos + enc_flagged(f).len())),
        pos + enc_flagged(f).len() <= b.len(),
        tail(b, pos + enc_flagged(f).len()) == rest,
{
    let m3 = enc_str(f.value) + rest;
    let m2 = enc_str(f.self_link) + m3;
    let m1 = enc_str(f.id) + m2;
    assert(tail(b, pos) =~= enc_bool(f.disabled) + m1);
    lemma_rt_bool(b, pos, f.disabled, m1);
    lemma_rt_str(b, pos + 1, f.id, m2);
    let p2 = pos + 1 + enc_str(f.id).len();
    lemma_rt_str(b, p2, f.self_link, m3);
    let p3 = p2 + enc_str(f.self_link).len();
    lemma_rt_str(b, p3, f.value, rest);
}

proof fn lemma_rt_flaggeds(
    b: Seq<u8>,
    pos: int,
    s: Seq<FlaggedView>,
    rest: Seq<u8>,
    acc: Seq<FlaggedView>,
)
    requires
        0 <= pos <= b.len(),
        forall|i: int| 0 <= i < s.len() ==> wf_flagged(#[trigger] s[i]),
        tail(b, pos) == enc_flaggeds(s) + rest,
    ensures
        sdec_flaggeds(b, pos, s.len(), acc) == Some((acc + s, pos + enc_flaggeds(s).len())),
        pos + enc_flaggeds(s).len() <= b.len(),
        tail(b, pos + enc_flaggeds(s).len()) == rest,
    decreases s.len(),
{
    if s.len() == 0 {
        assert(enc_flaggeds(s) + rest =~= rest);
        assert(acc + s =~= acc);
    } else {
        let mid = enc_flaggeds(s.drop_first()) + rest;
        assert(tail(b, pos) =~= enc_flagged(s[0]) + mid);
        lemma_rt_flagged(b, pos, s[0], mid);
        let p = pos + enc_flagged(s[0]).len();
        lemma_rt_flaggeds(b, p, s.drop_first(), rest, acc.push(s[0]));
        assert(acc.push(s[0]) + s.drop_first() =~= acc + s);
    }
}

proof fn lemma_rt_strs(b: Seq<u8>, pos: int, s: Seq<Seq<char>>, rest: Seq<u8>, acc: Seq<Seq<char>>)
    requires
        0 <= pos <= b.len(),
        forall|i: int| 0 <= i < s.len() ==> wf_str(#[trigger] s[i]),
        tail(b, pos) == enc_strs(s) + rest,
    ensures
        sdec_strs(b, pos, s.len(), acc) == Some((acc + s, pos + enc_strs(s).len())),
        pos + enc_strs(s).len() <= b.len(),
        tail(b, pos + enc_strs(s).len()) == rest,
    decreases s.len(),
{
    if s.len() == 0 {
        assert(enc_strs(s) + rest =~= rest);
        assert(acc + s =~= acc);
    } else {
        let mid = enc_strs(s.drop_first()) + rest;
        assert(tail(b, pos) =~= enc_str(s[0]) + mid);
        lemma_rt_str(b, pos, s[0], mid);
        let p = pos + enc_str(s[0]).len();
        lemma_rt_strs(b, p, s.drop_first(), rest, acc.push(s[0]));
        assert(acc.push(s[0]) + s.drop_first() =~= acc + s);
    }
}

proof fn lemma_rt_flag_field(b: Seq<u8>, pos: int, f: FlagFieldView, rest: Seq<u8>)
    requires
        0 <= pos <= b.len(),
        wf_flag_field(f),
        tail(b, pos) == enc_flag_field(f) + rest,
    ensures
        sdec_flag_field(b, pos) == Some((f, pos + enc_flag_field(f).len())),
        pos + enc_flag_field(f).len() <= b.len(),
        tail(b, pos + enc_flag_field(f).len()) == rest,
{
    match f {
        FlagFieldView::Absent => {
            assert(tail(b, pos) =~= seq![0u8] + rest);
            lemma_rt_byte(b, pos, 0u8, rest);
        },
        FlagFieldView::Entries(es) => {
            let len = es.len() as u64;
            let m2 = enc_flaggeds(es) + rest;
            let m1 = enc_u64(len) + m2;
            assert(tail(b, pos) =~= seq![1u8] + m1);
            lemma_rt_byte(b, pos, 1u8, m1);
            lemma_rt_u64(b, pos + 1, len, m2);
            lemma_rt_flaggeds(b, pos + 9, es, rest, Seq::empty());
            assert(len as nat == es.len());
            assert(Seq::empty() + es =~= es);
        },
        FlagFieldView::Malformed => {
            assert(tail(b, pos) =~= seq![2u8] + rest);
            lemma_rt_byte(b, pos, 2u8, rest);
        },
    }
}

#[verifier::rlimit(100)]
proof fn lemma_rt_record(b: Seq<u8>, pos: int, r: IssueView, rest: Seq<u8>)
    requires
        0 <= pos <= b.len(),
        wf_record(r),
        tail(b, pos) == enc_record(r) + rest,
    ensures
        sdec_record(b, pos) == Some((r, pos + enc_record(r).len())),
        pos + enc_record(r).len() <= b.len(),
        tail(b, pos + enc_record(r).len()) == rest,
{
    let len = r.components.len() as u64;
    let m6 = enc_flag_field(r.flag_field) + rest;
    let m5 = enc_strs(r.components) + m6;
    let m4 = enc_u64(len) + m5;
    let m3 = enc_str(r.issue_type_name) + m4;
    let m2 = enc_opt_str(r.status_name) + m3;
    let m1 = enc_opt_str(r.summary) + m2;
    assert(tail(b, pos) =~= enc_str(r.key) + m1);
    lemma_rt_str(b, pos, r.key, m1);
    let p1 = pos + enc_str(r.key).len();
    lemma_rt_opt_str(b, p1, r.summary, m2);
    let p2 = p1 + enc_opt_str(r.summary).len();
    lemma_rt_opt_str(b, p2, r.status_name, m3);
    let p3 = p2 + enc_opt_str(r.status_name).len();
    lemma_rt_str(b, p3, r.issue_type_name, m4);
    let p4 = p3 + enc_str(r.issue_type_name).len();
    lemma_rt_u64(b, p4, len, m5);
    let p5 = p4 + 8;
    lemma_rt_strs(b, p5, r.components, m6, Seq::empty());
    let p6 = p5 + enc_strs(r.components).len();
    lemma_rt_flag_field(b, p6, r.flag_field, rest);
    assert(len as nat == r.components.len());
    assert(Seq::empty() + r.components =~= r.components);
}

proof fn lemma_rt_records(b: Seq<u8>, pos: int, s: Seq<IssueView>, rest: Seq<u8>, acc: Seq<
    IssueView,
>)
    requires
        0 <= pos <= b.len(),
        forall|i: int| 0 <= i < s.len() ==> wf_record(#[trigger] s[i]),
        tail(b, pos) == enc_records(s) + rest,
    ensures
        sdec_records(b, pos, s.len(), acc) == Some((acc + s, pos + enc_records(s).len())),
        pos + enc_records(s).len() <= b.len(),
        tail(b, pos + enc_records(s).len()) == rest,
    decreases s.len(),
{
    if s.len() == 0 {
        assert(enc_records(s) + rest =~= rest);
        assert(acc + s =~= acc);
    } else {
        let mid = enc_records(s.drop_first()) + rest;
        assert(tail(b, pos) =~= enc_record(s[0]) + mid);
        lemma_rt_record(b, pos, s[0], mid);
        let p = pos + enc_record(s[0]).len();
        lemma_rt_records(b, p, s.drop_first(), rest, acc.push(s[0]));
        assert(acc.push(s[0]) + s.drop_first() =~= acc + s);
    }
}

/// Writing a snapshot and reading it back yields the written snapshot, field
/// for field and in order, for every snapshot whose lengths fit the format's
/// 8-byte counts.
pub proof fn lemma_snapshot_round_trip(s: Seq<IssueView>)
    requires
        wf_snapshot(s),
    ensures
        sdec_snapshot(enc_snapshot(s)) == Some(s),
{
    let b = enc_snapshot(s);
    let len = s.len() as u64;
    assert(tail(b, 0) =~= enc_u64(len) + enc_records(s));
    lemma_rt_u64(b, 0, len, enc_records(s));
    assert(tail(b, 8) == enc_records(s) + Seq::<u8>::empty()) by {
        assert(enc_records(s) + Seq::<u8>::empty() =~= enc_records(s));
    }
    lemma_rt_records(b, 8, s, Seq::empty(), Seq::empty());
    assert(len as nat == s.len());
    assert(Seq::empty() + s =~= s);
    assert(8 + enc_records(s).len() == b.len());
}

// ---------------------------------------------------------------------------
// The executable decoder: it computes exactly the spec-level decoder
// ---------------------------------------------------------------------------

fn dec_u64(b: &Vec<u8>, pos: usize) -> (r: Option<(u64, usize)>)
    ensures
        match r {
            Some((v, p)) => sdec_u64(b@, pos as int) == Some((v, p as int)),
            None => sdec_u64(b@, pos as int) is None,
        },
{
    if pos <= b.len() && b.len() - pos >= 8 {
        let sl = slice_subrange(b.as_slice(), pos, pos + 8);
        Some((u64_from_le_bytes(sl), pos + 8))
    } else {
        None
    }
}

fn dec_byte(b: &Vec<u8>, pos: usize) -> (r: Option<(u8, usize)>)
    ensures
        match r {
            Some((t, p)) => sdec_byte(b@, pos as int) == Some((t, p as int)),
            None => sdec_byte(b@, pos as int) is None,
        },
{
    if pos < b.len() {
        Some((b[pos], pos + 1))
    } else {
        None
    }
}

fn dec_char(b: &Vec<u8>, pos: usize) -> (r: Option<(char, usize)>)
    ensures
        match r {
            Some((c, p)) => sdec_char(b@, pos as int) == Some((c, p as int)),
            None => sdec_char(b@, pos as int) is None,
        },
{
    if pos <= b.len() && b.len() - pos >= 4 {
        let sl = slice_subrange(b.as_slice(), pos, pos + 4);
        let u = u32_from_le_bytes(sl);
        match char_from_u32(u) {
            Some(c) => {
                proof {
                    char_is_scalar(c);
                    char_u32_cast(c, u);
                }
                Some((c, pos + 4))
            },
            None => None,
        }
    } else {
        None
    }
}

fn dec_chars_str(b: &Vec<u8>, pos: usize, n: u64) -> (r: Option<(String, usize)>)
    ensures
        match r {
            Some((s, p)) => sdec_chars(b@, pos as int, n as nat, Seq::empty()) == Some(
                (s@, p as int),
            ),
            None => sdec_chars(b@, pos as int, n as nat, Seq::empty()) is None,
        },
{
    let mut s = String::new();
    let mut q = pos;
    let mut i: u64 = 0;
    while i < n
        invariant
            i <= n,
            sdec_chars(b@, pos as int, n as nat, Seq::empty()) == sdec_chars(
                b@,
                q as int,
                (n - i) as nat,
                s@,
            ),
        decreases n - i,
    {
        match dec_char(b, q) {
            Some((c, q2)) => {
                push_char(&mut s, c);
                q = q2;
                i = i + 1;
            },
            None => {
                return None;
            },
        }
    }
    Some((s, q))
}

fn dec_str(b: &Vec<u8>, pos: usize) -> (r: Option<(String, usize)>)
    ensures
        match r {
            Some((s, p)) => sdec_str(b@, pos as int) == Some((s@, p as int)),
            None => sdec_str(b@, pos as int) is None,
        },
{
    match dec_u64(b, pos) {
        Some((n, p0)) => dec_chars_str(b, p0, n),
        None => None,
    }
}

fn dec_opt_str(b: &Vec<u8>, pos: usize) -> (r: Option<(Option<String>, usize)>)
    ensures
        match r {
            Some((o, p)) => sdec_opt_str(b@, pos as int) == Some((o.deep_view(), p as int)),
            None => sdec_opt_str(b@, pos as int) is None,
        },
{
    let (tag, p) = match dec_byte(b, pos) {
        Some(x) => x,
        None => {
            return None;
        },
    };
    if tag == 0 {
        Some((None, p))
    } else if tag == 1 {
        match dec_str(b, p) {
            Some((s, p2)) => Some((Some(s), p2)),
            None => None,
        }
    } else {
        None
    }
}

fn dec_bool(b: &Vec<u8>, pos: usize) -> (r: Option<(bool, usize)>)
    ensures
        match r {
            Some((v, p)) => sdec_bool(b@, pos as int) == Some((v, p as int)),
            None => sdec_bool(b@, pos as int) is None,
        },
{
    let (tag, p) = match dec_byte(b, pos) {
        Some(x) => x,
        None => {
            return None;
        },
    };
    if tag == 0 {
        Some((false, p))
    } else if tag == 1 {
        Some((true, p))
    } else {
        None
    }
}

fn dec_flagged(b: &Vec<u8>, pos: usize) -> (r: Option<(Flagged, usize)>)
    ensures
        match r {
            Some((f, p)) => sdec_flagged(b@, pos as int) == Some((f@, p as int)),
            None => sdec_flagged(b@, pos as int) is None,
        },
{
    let (d, p1) = match dec_bool(b, pos) {
        Some(x) => x,
        None => {
            return None;
        },
    };
    let (id, p2) = match dec_str(b, p1) {
        Some(x) => x,
        None => {
            return None;
        },
    };
    let (sl, p3) = match dec_str(b, p2) {
        Some(x) => x,
        None => {
            return None;
        },
    };
    let (v, p4) = match dec_str(b, p3) {
        Some(x) => x,
        None => {
            return None;
        },
    };
    let f = Flagged { disabled: d, id, self_link: sl, value: v };
    Some((f, p4))
}

fn dec_flaggeds_vec(b: &Vec<u8>, pos: usize, n: u64) -> (r: Option<(Vec<Flagged>, usize)>)
    ensures
        match r {
            Some((es, p)) => sdec_flaggeds(b@, pos as int, n as nat, Seq::empty()) == Some(
                (es.deep_view(), p as int),
            ),
            None => sdec_flaggeds(b@, pos as int, n as nat, Seq::empty()) is None,
        },
{
    let mut es: Vec<Flagged> = Vec::new();
    let mut q = pos;
    let mut i: u64 = 0;
    proof {
        assert(es.deep_view() =~= Seq::<FlaggedView>::empty());
    }
    while i < n
        invariant
            i <= n,
            sdec_flaggeds(b@, pos as int, n as nat, Seq::empty()) == sdec_flaggeds(
                b@,
                q as int,
                (n - i) as nat,
                es.deep_view(),
            ),
        decreases n - i,
    {
        match dec_flagged(b, q) {
            Some((f, q2)) => {
                let ghost pre = es.deep_view();
                let ghost fv = f@;
                es.push(f);
                proof {
                    assert(es.deep_view() =~= pre.push(fv));
                }
                q = q2;
                i = i + 1;
            },
            None => {
                return None;
            },
        }
    }
    Some((es, q))
}

fn dec_strs_vec(b: &Vec<u8>, pos: usize, n: u64) -> (r: Option<(Vec<String>, usize)>)
    ensures
        match r {
            Some((v, p)) => sdec_strs(b@, pos as int, n as nat, Seq::empty()) == Some(
                (v.deep_view(), p as int),
            ),
            None => sdec_strs(b@, pos as int, n as nat, Seq::empty()) is None,
        },
{
    let mut v: Vec<String> = Vec::new();
    let mut q = pos;
    let mut i: u64 = 0;
    proof {
        assert(v.deep_view() =~= Seq::<Seq<char>>::empty());
    }
    while i < n
        invariant
            i <= n,
            sdec_strs(b@, pos as int, n as nat, Seq::empty()) == sdec_strs(
                b@,
                q as int,
                (n - i) as nat,
                v.deep_view(),
            ),
        decreases n - i,
    {
        match dec_str(b, q) {
            Some((s, q2)) => {
                let ghost pre = v.deep_view();
                let ghost sv = s@;
                v.push(s);
                proof {
                    assert(v.deep_view() =~= pre.push(sv));
                }
                q = q2;
                i = i + 1;
            },
            None => {
                return None;
            },
        }
    }
    Some((v, q))
}

fn dec_flag_field(b: &Vec<u8>, pos: usize) -> (r: Option<(FlagField, usize)>)
    ensures
        match r {
            Some((f, p)) => sdec_flag_field(b@, pos as int) == Some((f@, p as int)),
            None => sdec_flag_field(b@, pos as int) is None,
        },
{
    let (tag, p) = match dec_byte(b, pos) {
        Some(x) => x,
        None => {
            return None;
        },
    };
    if tag == 0 {
        Some((FlagField::Absent, p))
    } else if tag == 2 {
        Some((FlagField::Malformed, p))
    } else if tag == 1 {
        let (n, p2) = match dec_u64(b, p) {
            Some(x) => x,
            None => {
                return None;
            },
        };
        match dec_flaggeds_vec(b, p2, n) {
            Some((es, p3)) => {
                let ff = FlagField::Entries(es);
                Some((ff, p3))
            },
            None => None,
        }
    } else {
        None
    }
}

fn dec_record(b: &Vec<u8>, pos: usize) -> (r: Option<(IssueRecord, usize)>)
    ensures
        match r {
            Some((rec, p)) => sdec_record(b@, pos as int) == Some((rec@, p as int)),
            None => sdec_record(b@, pos as int) is None,
        },
{
    let (key, p1) = match dec_str(b, pos) {
        Some(x) => x,
        None => {
            return None;
        },
    };
    let (summary, p2) = match dec_opt_str(b, p1) {
        Some(x) => x,
        None => {
            return None;
        },
    };
    let (status_name, p3) = match dec_opt_str(b, p2) {
        Some(x) => x,
        None => {
            return None;
        },
    };
    let (ty, p4) = match dec_str(b, p3) {
        Some(x) => x,
        None => {
            return None;
        },
    };
    let (n, p5) = match dec_u64(b, p4) {
        Some(x) => x,
        None => {
            return None;
        },
    };
    let (comps, p6) = match dec_strs_vec(b, p5, n) {
        Some(x) => x,
        None => {
            return None;
        },
    };
    let (ff, p7) = match dec_flag_field(b, p6) {
        Some(x) => x,
        None => {
            return None;
        },
    };
    let rec = IssueRecord {
        key,
        summary,
        status_name,
        issue_type_name: ty,
        components: comps,
        flag_field: ff,
    };
    proof {
        let expected = sdec_record(b@, pos as int);
        assert(expected matches Some((rv, pp)) && rec@ =~~= rv && pp == p7 as int);
    }
    Some((rec, p7))
}

fn dec_records_vec(b: &Vec<u8>, pos: usize, n: u64) -> (r: Option<(Vec<IssueRecord>, usize)>)
    ensures
        match r {
            Some((v, p)) => sdec_records(b@, pos as int, n as nat, Seq::empty()) == Some(
                (v.deep_view(), p as int),
            ),
            None => sdec_records(b@, pos as int, n as nat, Seq::empty()) is None,
        },
{
    let mut v: Vec<IssueRecord> = Vec::new();
    let mut q = pos;
    let mut i: u64 = 0;
    proof {
        assert(v.deep_view() =~= Seq::<IssueView>::empty());
    }
    while i < n
        invariant
            i <= n,
            sdec_records(b@, pos as int, n as nat, Seq::empty()) == sdec_records(
                b@,
                q as int,
                (n - i) as nat,
                v.deep_view(),
            ),
        decreases n - i,
    {
        match dec_record(b, q) {
            Some((rec, q2)) => {
                let ghost pre = v.deep_view();
                let ghost rv = rec@;
                v.push(rec);
                proof {
                    assert(v.deep_view() =~= pre.push(rv));
                }
                q = q2;
                i = i + 1;
            },
            None => {
                return None;
            },
        }
    }
    Some((v, q))
}

/// Deserializes cache bytes back into the snapshot; `None` exactly on bytes
/// that are not the encoding of any snapshot.
pub fn decode_snapshot(b: &Vec<u8>) -> (r: Option<Vec<IssueRecord>>)
    ensures
        match r {
            Some(v) => sdec_snapshot(b@) == Some(v.deep_view()),
            None => sdec_snapshot(b@) is None,
        },
{
    let (n, p0) = match dec_u64(b, 0) {
        Some(x) => x,
        None => {
            return None;
        },
    };
    match dec_records_vec(b, p0, n) {
        Some((v, p)) => {
            if p == b.len() {
                Some(v)
            } else {
                None
            }
        },
        None => None,
    }
}

// ---------------------------------------------------------------------------
// Concatenation lemmas used by the encoder loops
// ---------------------------------------------------------------------------

proof fn lemma_enc_chars_snoc(s: Seq<char>, x: char)
    ensures
        enc_chars(s.push(x)) == enc_chars(s) + enc_char(x),
    decreases s.len(),
{
    if s.len() == 0 {
        assert(s.push(x).drop_first() =~= Seq::<char>::empty());
        assert(s.push(x)[0] == x);
        assert(enc_chars(Seq::<char>::empty()) == Seq::<u8>::empty());
        assert(enc_chars(s.push(x)) =~= enc_chars(s) + enc_char(x));
    } else {
        lemma_enc_chars_snoc(s.drop_first(), x);
        assert(s.push(x).drop_first() =~= s.drop_first().push(x));
        assert(enc_char(s[0]) + (enc_chars(s.drop_first()) + enc_char(x)) =~= (enc_char(s[0])
            + enc_chars(s.drop_first())) + enc_char(x));
    }
}

proof fn lemma_enc_strs_snoc(s: Seq<Seq<char>>, x: Seq<char>)
    ensures
        enc_strs(s.push(x)) == enc_strs(s) + enc_str(x),
    decreases s.len(),
{
    if s.len() == 0 {
        assert(s.push(x).drop_first() =~= Seq::<Seq<char>>::empty());
        assert(s.push(x)[0] == x);
        assert(enc_strs(Seq::<Seq<char>>::empty()) == Seq::<u8>::empty());
        assert(enc_strs(s.push(x)) =~= enc_strs(s) + enc_str(x));
    } else {
        lemma_enc_strs_snoc(s.drop_first(), x);
        assert(s.push(x).drop_first() =~= s.drop_first().push(x));
        assert(enc_str(s[0]) + (enc_strs(s.drop_first()) + enc_str(x)) =~= (enc_str(s[0])
            + enc_strs(s.drop_first())) + enc_str(x));
    }
}

proof fn lemma_enc_flaggeds_snoc(s: Seq<FlaggedView>, x: FlaggedView)
    ensures
        enc_flaggeds(s.push(x)) == enc_flaggeds(s) + enc_flagged(x),
    decreases s.len(),
{
    if s.len() == 0 {
        assert(s.push(x).drop_first() =~= Seq::<FlaggedView>::empty());
        assert(s.push(x)[0] == x);
        assert(enc_flaggeds(Seq::<FlaggedView>::empty()) == Seq::<u8>::empty());
        assert(enc_flaggeds(s.push(x)) =~= enc_flaggeds(s) + enc_flagged(x));
    } else {
        lemma_enc_flaggeds_snoc(s.drop_first(), x);
        assert(s.push(x).drop_first() =~= s.drop_first().push(x));
        assert(enc_flagged(s[0]) + (enc_flaggeds(s.drop_first()) + enc_flagged(x)) =~= (enc_flagged(
            s[0],
        ) + enc_flaggeds(s.drop_first())) + enc_flagged(x));
    }
}

// ---------------------------------------------------------------------------
// The executable encoder
// ---------------------------------------------------------------------------

fn enc_push_u64(out: &mut Vec<u8>, v: u64)
    ensures
        final(out)@ == old(out)@ + enc_u64(v),
{
    let mut b = u64_to_le_bytes(v);
    out.append(&mut b);
}

fn enc_push_u32(out: &mut Vec<u8>, v: u32)
    ensures
        final(out)@ == old(out)@ + spec_u32_to_le_bytes(v),
{
    let mut b = u32_to_le_bytes(v);
    out.append(&mut b);
}

fn enc_push_byte(out: &mut Vec<u8>, t: u8)
    ensures
        final(out)@ == old(out)@ + seq![t],
{
    out.push(t);
    proof {
        assert(out@ =~= old(out)@ + seq![t]);
    }
}

fn enc_push_str(out: &mut Vec<u8>, s: &String)
    ensures
        final(out)@ == old(out)@ + enc_str(s@),
        wf_str(s@),
{
    let n = s.as_str().unicode_len();
    enc_push_u64(out, n as u64);
    let ghost base = out@;
    let mut i: usize = 0;
    while i < n
        invariant
            n == s@.len(),
            i <= n,
            out@ == base + enc_chars(s@.take(i as int)),
        decreases n - i,
    {
        let c = s.as_str().get_char(i);
        enc_push_u32(out, c as u32);
        i = i + 1;
        proof {
            lemma_enc_chars_snoc(s@.take(i - 1), s@[i - 1]);
            assert(s@.take(i as int) =~= s@.take(i - 1).push(s@[i - 1]));
            assert((base + enc_chars(s@.take(i - 1))) + enc_char(s@[i - 1]) =~= base + enc_chars(
                s@.take(i as int),
            ));
        }
    }
    proof {
        assert(s@.take(n as int) =~= s@);
        assert(old(out)@ + enc_u64(s@.len() as u64) + enc_chars(s@) =~= old(out)@ + enc_str(s@));
    }
}

fn enc_push_opt_str(out: &mut Vec<u8>, o: &Option<String>)
    ensures
        final(out)@ == old(out)@ + enc_opt_str(o.deep_view()),
        wf_opt_str(o.deep_view()),
{
    match o {
        None => {
            enc_push_byte(out, 0u8);
        },
        Some(s) => {
            enc_push_byte(out, 1u8);
            enc_push_str(out, s);
            proof {
                assert((old(out)@ + seq![1u8]) + enc_str(s@) =~= old(out)@ + enc_opt_str(
                    o.deep_view(),
                ));
            }
        },
    }
}

fn enc_push_bool(out: &mut Vec<u8>, v: bool)
    ensures
        final(out)@ == old(out)@ + enc_bool(v),
{
    if v {
        enc_push_byte(out, 1u8);
    } else {
        enc_push_byte(out, 0u8);
    }
}

fn enc_push_flagged(out: &mut Vec<u8>, f: &Flagged)
    ensures
        final(out)@ == old(out)@ + enc_flagged(f@),
        wf_flagged(f@),
{
    enc_push_bool(out, f.disabled);
    enc_push_str(out, &f.id);
    enc_push_str(out, &f.self_link);
    enc_push_str(out, &f.value);
    proof {
        assert(((old(out)@ + enc_bool(f@.disabled) + enc_str(f@.id)) + enc_str(f@.self_link))
            + enc_str(f@.value) =~= old(out)@ + enc_flagged(f@));
    }
}

fn enc_push_flag_field(out: &mut Vec<u8>, f: &FlagField)
    ensures
        final(out)@ == old(out)@ + enc_flag_field(f@),
        wf_flag_field(f@),
{
    match f {
        FlagField::Absent => {
            enc_push_byte(out, 0u8);
        },
        FlagField::Malformed => {
            enc_push_byte(out, 2u8);
        },
        FlagField::Entries(es) => {
            enc_push_byte(out, 1u8);
            enc_push_u64(out, es.len() as u64);
            let ghost base = out@;
            let mut i: usize = 0;
            while i < es.len()
                invariant
                    i <= es.len(),
                    out@ == base + enc_flaggeds(es.deep_view().take(i as int)),
                    forall|j: int| 0 <= j < i ==> wf_flagged(#[trigger] es.deep_view()[j]),
                decreases es.len() - i,
            {
                enc_push_flagged(out, &es[i]);
                i = i + 1;
                proof {
                    let dv = es.deep_view();
                    lemma_enc_flaggeds_snoc(dv.take(i - 1), dv[i - 1]);
                    assert(dv.take(i as int) =~= dv.take(i - 1).push(dv[i - 1]));
                    assert((base + enc_flaggeds(dv.take(i - 1))) + enc_flagged(dv[i - 1])
                        =~= base + enc_flaggeds(dv.take(i as int)));
                }
            }
            proof {
                let dv = es.deep_view();
                assert(dv.take(es@.len() as int) =~= dv);
                assert(((old(out)@ + seq![1u8]) + enc_u64(dv.len() as u64)) + enc_flaggeds(dv)
                    =~= old(out)@ + enc_flag_field(f@));
            }
        },
    }
}

fn enc_push_strs(out: &mut Vec<u8>, v: &Vec<String>)
    ensures
        final(out)@ == old(out)@ + enc_u64(v@.len() as u64) + enc_strs(v.deep_view()),
        v.deep_view().len() <= u64::MAX,
        forall|j: int| 0 <= j < v.deep_view().len() ==> wf_str(#[trigger] v.deep_view()[j]),
{
    enc_push_u64(out, v.len() as u64);
    let ghost base = out@;
    let mut i: usize = 0;
    while i < v.len()
        invariant
            i <= v.len(),
            out@ == base + enc_strs(v.deep_view().take(i as int)),
            forall|j: int| 0 <= j < i ==> wf_str(#[trigger] v.deep_view()[j]),
        decreases v.len() - i,
    {
        enc_push_str(out, &v[i]);
        i = i + 1;
        proof {
            let dv = v.deep_view();
            lemma_enc_strs_snoc(dv.take(i - 1), dv[i - 1]);
            assert(dv.take(i as int) =~= dv.take(i - 1).push(dv[i - 1]));
            assert((base + enc_strs(dv.take(i - 1))) + enc_str(dv[i - 1]) =~= base + enc_strs(
                dv.take(i as int),
            ));
        }
    }
    proof {
        assert(v.deep_view().take(v@.len() as int) =~= v.deep_view());
    }
}

#[verifier::rlimit(100)]
fn enc_push_record(out: &mut Vec<u8>, r: &IssueRecord)
    ensures
        final(out)@ == old(out)@ + enc_record(r@),
        wf_record(r@),
{
    enc_push_str(out, &r.key);
    enc_push_opt_str(out, &r.summary);
    enc_push_opt_str(out, &r.status_name);
    enc_push_str(out, &r.issue_type_name);
    enc_push_strs(out, &r.components);
    enc_push_flag_field(out, &r.flag_field);
    proof {
        assert((((((old(out)@ + enc_str(r@.key)) + enc_opt_str(r@.summary)) + enc_opt_str(
            r@.status_name,
        )) + enc_str(r@.issue_type_name)) + enc_u64(r@.components.len() as u64) + enc_strs(
            r@.components,
        )) + enc_flag_field(r@.flag_field) =~= old(out)@ + enc_record(r@));
    }
}

/// Serializes a snapshot to its cache bytes.
pub fn encode_snapshot(issues: &Vec<IssueRecord>) -> (out: Vec<u8>)
    ensures
        out@ == enc_snapshot(issues.deep_view()),
        wf_snapshot(issues.deep_view()),
{
    let mut out: Vec<u8> = Vec::new();
    enc_push_u64(&mut out, issues.len() as u64);
    let ghost base = out@;
    let mut i: usize = 0;
    while i < issues.len()
        invariant
            i <= issues.len(),
            out@ == base + enc_records(issues.deep_view().take(i as int)),
            forall|j: int| 0 <= j < i ==> wf_record(#[trigger] issues.deep_view()[j]),
        decreases issues.len() - i,
    {
        enc_push_record(&mut out, &issues[i]);
        i = i + 1;
        proof {
            let dv = issues.deep_view();
            lemma_enc_records_snoc(dv.take(i - 1), dv[i - 1]);
            assert(dv.take(i as int) =~= dv.take(i - 1).push(dv[i - 1]));
            assert((base + enc_records(dv.take(i - 1))) + enc_record(dv[i - 1]) =~= base
                + enc_records(dv.take(i as int)));
        }
    }
    proof {
        let dv = issues.deep_view();
        assert(dv.take(issues@.len() as int) =~= dv);
        assert(Seq::<u8>::empty() + enc_u64(dv.len() as u64) + enc_records(dv) =~= enc_snapshot(
            dv,
        ));
    }
    out
}

proof fn lemma_enc_records_snoc(s: Seq<IssueView>, x: IssueView)
    ensures
        enc_records(s.push(x)) == enc_records(s) + enc_record(x),
    decreases s.len(),
{
    if s.len() == 0 {
        assert(s.push(x).drop_first() =~= Seq::<IssueView>::empty());
        assert(s.push(x)[0] == x);
        assert(enc_records(Seq::<IssueView>::empty()) == Seq::<u8>::empty());
        assert(enc_records(s.push(x)) =~= enc_records(s) + enc_record(x));
    } else {
        lemma_enc_records_snoc(s.drop_first(), x);
        assert(s.push(x).drop_first() =~= s.drop_first().push(x));
        assert(enc_record(s[0]) + (enc_records(s.drop_first()) + enc_record(x)) =~= (enc_record(
            s[0],
        ) + enc_records(s.drop_first())) + enc_record(x));
    }
}

} // verus!
