use vstd::prelude::*;
use crate::cache::{Cache, Mtime, Record, RecordModel, spec_keys_distinct, spec_find};
use crate::chars::{chars_of, string_of};
use crate::digits::{spec_dec20, spec_parse_num, lemma_parse_num_dec20, push_dec20, parse_num};
use crate::fzf::{Entry, EntryModel};
use crate::symbol::{Kind, spec_kind_code, spec_kind_of_code, lemma_kind_code_round_trip};
use crate::text::Loc;

verus! {

// The on-disk store is one character stream: a record count, then per record
// its path, mtime and entry count, then per entry its fields. Numbers are
// written zero-padded to a fixed 20 digits and strings are written length
// first, so every string round-trips unchanged, separator characters and
// newlines included.

/// A length-prefixed string field.
pub open spec fn spec_txt(s: Seq<char>) -> Seq<char> {
    spec_dec20(s.len() as u64) + s
}

pub open spec fn spec_ser_entry(e: EntryModel) -> Seq<char> {
    spec_txt(e.path) + spec_dec20(e.loc.line) + spec_dec20(e.loc.column) + spec_dec20(
        spec_kind_code(e.kind),
    ) + spec_txt(e.text)
}

pub open spec fn spec_ser_entries(es: Seq<EntryModel>) -> Seq<char>
    decreases es.len(),
{
    if es.len() == 0 {
        Seq::empty()
    } else {
        spec_ser_entry(es[0]) + spec_ser_entries(es.drop_first())
    }
}

pub open spec fn spec_ser_record(p: Seq<char>, r: RecordModel) -> Seq<char> {
    spec_txt(p) + spec_dec20(r.mtime.secs) + spec_dec20(r.mtime.nanos as u64) + spec_dec20(
        r.entries.len() as u64,
    ) + spec_ser_entries(r.entries)
}

pub open spec fn spec_ser_records(s: Seq<(Seq<char>, RecordModel)>) -> Seq<char>
    decreases s.len(),
{
    if s.len() == 0 {
        Seq::empty()
    } else {
        spec_ser_record(s[0].0, s[0].1) + spec_ser_records(s.drop_first())
    }
}

/// The whole serialized store.
pub open spec fn spec_serialize(s: Seq<(Seq<char>, RecordModel)>) -> Seq<char> {
    spec_dec20(s.len() as u64) + spec_ser_records(s)
}

/// The bounds under which serialization is invertible: every count and
/// length fits the fixed-width number field.
pub open spec fn spec_entry_wf(e: EntryModel) -> bool {
    e.path.len() <= u64::MAX && e.text.len() <= u64::MAX
}

pub open spec fn spec_record_wf(r: RecordModel) -> bool {
    r.entries.len() <= u64::MAX && forall|i: int|
        0 <= i < r.entries.len() ==> spec_entry_wf(#[trigger] r.entries[i])
}

pub open spec fn spec_model_wf(s: Seq<(Seq<char>, RecordModel)>) -> bool {
    s.len() <= u64::MAX && forall|i: int|
        0 <= i < s.len() ==> (#[trigger] s[i].0).len() <= u64::MAX && spec_record_wf(s[i].1)
}

pub open spec fn spec_parse_txt(s: Seq<char>) -> Option<(Seq<char>, Seq<char>)> {
    match spec_parse_num(s) {
        None => None,
        Some((n, r)) => if r.len() < n {
            None
        } else {
            Some((r.take(n as int), r.skip(n as int)))
        },
    }
}

pub open spec fn spec_parse_entry(s: Seq<char>) -> Option<(EntryModel, Seq<char>)> {
    match spec_parse_txt(s) {
        None => None,
        Some((path, s1)) => match spec_parse_num(s1) {
            None => None,
            Some((line, s2)) => match spec_parse_num(s2) {
                None => None,
                Some((column, s3)) => match spec_parse_num(s3) {
                    None => None,
                    Some((code, s4)) => match spec_kind_of_code(code) {
                        None => None,
                        Some(kind) => match spec_parse_txt(s4) {
                            None => None,
                            Some((text, s5)) => Some(
                                (
                                    EntryModel {
                                        path,
                                        loc: Loc { line, column },
                                        text,
                                        kind,
                                    },
                                    s5,
                                ),
                            ),
                        },
                    },
                },
            },
        },
    }
}

pub open spec fn spec_parse_entries(s: Seq<char>, k: u64) -> Option<(Seq<EntryModel>, Seq<char>)>
    decreases k,
{
    if k == 0 {
        Some((Seq::empty(), s))
    } else {
        match spec_parse_entry(s) {
            None => None,
            Some((e, r)) => match spec_parse_entries(r, (k - 1) as u64) {
                None => None,
                Some((es, r2)) => Some((seq![e] + es, r2)),
            },
        }
    }
}

pub open spec fn spec_parse_record(s: Seq<char>) -> Option<((Seq<char>, RecordModel), Seq<char>)> {
    match spec_parse_txt(s) {
        None => None,
        Some((path, s1)) => match spec_parse_num(s1) {
            None => None,
            Some((secs, s2)) => match spec_parse_num(s2) {
                None => None,
                Some((nanos, s3)) => if nanos > u32::MAX {
                    None
                } else {
                    match spec_parse_num(s3) {
                        None => None,
                        Some((k, s4)) => match spec_parse_entries(s4, k) {
                            None => None,
                            Some((es, s5)) => Some(
                                (
                                    (
                                        path,
                                        RecordModel {
                                            mtime: Mtime { secs, nanos: nanos as u32 },
                                            entries: es,
                                        },
                                    ),
                                    s5,
                                ),
                            ),
                        },
                    }
                },
            },
        },
    }
}

pub open spec fn spec_parse_records(s: Seq<char>, k: u64) -> Option<
    (Seq<(Seq<char>, RecordModel)>, Seq<char>),
>
    decreases k,
{
    if k == 0 {
        Some((Seq::empty(), s))
    } else {
        match spec_parse_record(s) {
            None => None,
            Some((pr, r)) => match spec_parse_records(r, (k - 1) as u64) {
                None => None,
                Some((prs, r2)) => Some((seq![pr] + prs, r2)),
            },
        }
    }
}

/// The whole reading: the record count, that many records, nothing left.
pub open spec fn spec_parse_cache(s: Seq<char>) -> Option<Seq<(Seq<char>, RecordModel)>> {
    match spec_parse_num(s) {
        None => None,
        Some((k, r)) => match spec_parse_records(r, k) {
            None => None,
            Some((prs, r2)) => if r2.len() == 0 {
                Some(prs)
            } else {
                None
            },
        },
    }
}

/// Reading a written string field gives the string back.
pub proof fn lemma_parse_txt(x: Seq<char>, rest: Seq<char>)
    requires
        x.len() <= u64::MAX,
    ensures
        spec_parse_txt(spec_txt(x) + rest) == Some((x, rest)),
{
    let n = x.len() as u64;
    assert(spec_txt(x) + rest =~= spec_dec20(n) + (x + rest));
    lemma_parse_num_dec20(n, x + rest);
    assert((x + rest).take(n as int) =~= x);
    assert((x + rest).skip(n as int) =~= rest);
}

/// Reading a written entry gives the entry back.
#[verifier::rlimit(100)]
pub proof fn lemma_parse_entry(e: EntryModel, rest: Seq<char>)
    requires
        spec_entry_wf(e),
    ensures
        spec_parse_entry(spec_ser_entry(e) + rest) == Some((e, rest)),
{
    let t1 = spec_dec20(e.loc.line) + spec_dec20(e.loc.column) + spec_dec20(
        spec_kind_code(e.kind),
    ) + spec_txt(e.text) + rest;
    assert(spec_ser_entry(e) + rest =~= spec_txt(e.path) + t1);
    lemma_parse_txt(e.path, t1);
    let t2 = spec_dec20(e.loc.column) + spec_dec20(spec_kind_code(e.kind)) + spec_txt(e.text)
        + rest;
    assert(t1 =~= spec_dec20(e.loc.line) + t2);
    lemma_parse_num_dec20(e.loc.line, t2);
    let t3 = spec_dec20(spec_kind_code(e.kind)) + spec_txt(e.text) + rest;
    assert(t2 =~= spec_dec20(e.loc.column) + t3);
    lemma_parse_num_dec20(e.loc.column, t3);
    let t4 = spec_txt(e.text) + rest;
    assert(t3 =~= spec_dec20(spec_kind_code(e.kind)) + t4);
    lemma_parse_num_dec20(spec_kind_code(e.kind), t4);
    lemma_kind_code_round_trip(e.kind);
    lemma_parse_txt(e.text, rest);
    assert(Loc { line: e.loc.line, column: e.loc.column } == e.loc);
}

/// Reading `k` written entries gives them back.
#[verifier::rlimit(100)]
pub proof fn lemma_parse_entries(es: Seq<EntryModel>, rest: Seq<char>)
    requires
        es.len() <= u64::MAX,
        forall|i: int| 0 <= i < es.len() ==> spec_entry_wf(#[trigger] es[i]),
    ensures
        spec_parse_entries(spec_ser_entries(es) + rest, es.len() as u64) == Some((es, rest)),
    decreases es.len(),
{
    if es.len() == 0 {
        assert(spec_ser_entries(es) + rest =~= rest);
        assert(seq![] + Seq::<EntryModel>::empty() =~= Seq::<EntryModel>::empty());
    } else {
        let e0 = es[0];
        let tail = es.drop_first();
        let k = es.len() as u64;
        let full = spec_ser_entries(es) + rest;
        let t = spec_ser_entries(tail) + rest;
        assert(full =~= spec_ser_entry(e0) + t);
        lemma_parse_entry(e0, t);
        assert(spec_parse_entry(full) == Some((e0, t)));
        assert(forall|i: int| 0 <= i < tail.len() ==> tail[i] == es[i + 1]);
        lemma_parse_entries(tail, rest);
        assert(spec_parse_entries(t, (k - 1) as u64) == Some((tail, rest)));
        assert(spec_parse_entries(full, k) == Some((seq![e0] + tail, rest)));
        assert(seq![e0] + tail =~= es);
    }
}

/// Reading a written record gives it back.
#[verifier::rlimit(100)]
pub proof fn lemma_parse_record(p: Seq<char>, r: RecordModel, rest: Seq<char>)
    requires
        p.len() <= u64::MAX,
        spec_record_wf(r),
    ensures
        spec_parse_record(spec_ser_record(p, r) + rest) == Some(((p, r), rest)),
{
    let t1 = spec_dec20(r.mtime.secs) + spec_dec20(r.mtime.nanos as u64) + spec_dec20(
        r.entries.len() as u64,
    ) + spec_ser_entries(r.entries) + rest;
    assert(spec_ser_record(p, r) + rest =~= spec_txt(p) + t1);
    lemma_parse_txt(p, t1);
    let t2 = spec_dec20(r.mtime.nanos as u64) + spec_dec20(r.entries.len() as u64)
        + spec_ser_entries(r.entries) + rest;
    assert(t1 =~= spec_dec20(r.mtime.secs) + t2);
    lemma_parse_num_dec20(r.mtime.secs, t2);
    let t3 = spec_dec20(r.entries.len() as u64) + spec_ser_entries(r.entries) + rest;
    assert(t2 =~= spec_dec20(r.mtime.nanos as u64) + t3);
    lemma_parse_num_dec20(r.mtime.nanos as u64, t3);
    let t4 = spec_ser_entries(r.entries) + rest;
    assert(t3 =~= spec_dec20(r.entries.len() as u64) + t4);
    lemma_parse_num_dec20(r.entries.len() as u64, t4);
    lemma_parse_entries(r.entries, rest);
    assert(Mtime { secs: r.mtime.secs, nanos: r.mtime.nanos } == r.mtime);
    assert(RecordModel { mtime: r.mtime, entries: r.entries } == r);
}

/// Reading `k` written records gives them back.
#[verifier::rlimit(100)]
pub proof fn lemma_parse_records(s: Seq<(Seq<char>, RecordModel)>, rest: Seq<char>)
    requires
        spec_model_wf(s),
    ensures
        spec_parse_records(spec_ser_records(s) + rest, s.len() as u64) == Some((s, rest)),
    decreases s.len(),
{
    if s.len() == 0 {
        assert(spec_ser_records(s) + rest =~= rest);
        assert(seq![] + Seq::<(Seq<char>, RecordModel)>::empty() =~= Seq::<
            (Seq<char>, RecordModel),
        >::empty());
    } else {
        let r0 = s[0];
        let tail = s.drop_first();
        assert(spec_ser_records(s) + rest =~= spec_ser_record(r0.0, r0.1) + (spec_ser_records(
            tail,
        ) + rest));
        lemma_parse_record(r0.0, r0.1, spec_ser_records(tail) + rest);
        assert(forall|i: int| 0 <= i < tail.len() ==> tail[i] == s[i + 1]);
        lemma_parse_records(tail, rest);
        assert((r0.0, r0.1) == r0);
        assert(seq![r0] + tail =~= s);
    }
}

/// Round-trip: reading a written store reproduces the mapping exactly —
/// every path, mtime, location, kind and text, whatever characters the
/// strings hold.
pub proof fn lemma_round_trip(s: Seq<(Seq<char>, RecordModel)>)
    requires
        spec_model_wf(s),
    ensures
        spec_parse_cache(spec_serialize(s)) == Some(s),
{
    lemma_parse_num_dec20(s.len() as u64, spec_ser_records(s));
    lemma_parse_records(s, Seq::empty());
    assert(spec_ser_records(s) + Seq::<char>::empty() =~= spec_ser_records(s));
}


/// Writing one more entry appends its serialization.
pub proof fn lemma_ser_entries_snoc(es: Seq<EntryModel>, e: EntryModel)
    ensures
        spec_ser_entries(es.push(e)) == spec_ser_entries(es) + spec_ser_entry(e),
    decreases es.len(),
{
    if es.len() == 0 {
        assert(es.push(e)[0] == e);
        assert(es.push(e).drop_first() =~= Seq::<EntryModel>::empty());
        assert(spec_ser_entries(es.push(e)) == spec_ser_entry(e) + spec_ser_entries(
            Seq::<EntryModel>::empty(),
        ));
        assert(spec_ser_entries(Seq::<EntryModel>::empty()) == Seq::<char>::empty());
        assert(spec_ser_entries(es) == Seq::<char>::empty());
        assert(spec_ser_entry(e) + Seq::<char>::empty() =~= Seq::<char>::empty()
            + spec_ser_entry(e));
    } else {
        assert(es.push(e)[0] == es[0]);
        assert(es.push(e).drop_first() =~= es.drop_first().push(e));
        lemma_ser_entries_snoc(es.drop_first(), e);
        assert(spec_ser_entries(es.push(e)) == spec_ser_entry(es[0]) + (spec_ser_entries(
            es.drop_first(),
        ) + spec_ser_entry(e)));
        assert(spec_ser_entries(es) == spec_ser_entry(es[0]) + spec_ser_entries(es.drop_first()));
        assert(spec_ser_entry(es[0]) + (spec_ser_entries(es.drop_first()) + spec_ser_entry(e))
            =~= (spec_ser_entry(es[0]) + spec_ser_entries(es.drop_first())) + spec_ser_entry(e));
    }
}

/// Writing one more record appends its serialization.
pub proof fn lemma_ser_records_snoc(
    s: Seq<(Seq<char>, RecordModel)>,
    p: Seq<char>,
    r: RecordModel,
)
    ensures
        spec_ser_records(s.push((p, r))) == spec_ser_records(s) + spec_ser_record(p, r),
    decreases s.len(),
{
    if s.len() == 0 {
        assert(s.push((p, r))[0] == (p, r));
        assert(s.push((p, r)).drop_first() =~= Seq::<(Seq<char>, RecordModel)>::empty());
        assert(spec_ser_records(s.push((p, r))) == spec_ser_record(p, r) + spec_ser_records(
            Seq::<(Seq<char>, RecordModel)>::empty(),
        ));
        assert(spec_ser_records(Seq::<(Seq<char>, RecordModel)>::empty()) == Seq::<char>::empty());
        assert(spec_ser_records(s) == Seq::<char>::empty());
        assert(spec_ser_record(p, r) + Seq::<char>::empty() =~= Seq::<char>::empty()
            + spec_ser_record(p, r));
    } else {
        assert(s.push((p, r))[0] == s[0]);
        assert(s.push((p, r)).drop_first() =~= s.drop_first().push((p, r)));
        lemma_ser_records_snoc(s.drop_first(), p, r);
        assert(spec_ser_records(s.push((p, r))) == spec_ser_record(s[0].0, s[0].1) + (
        spec_ser_records(s.drop_first()) + spec_ser_record(p, r)));
        assert(spec_ser_records(s) == spec_ser_record(s[0].0, s[0].1) + spec_ser_records(
            s.drop_first(),
        ));
        assert(spec_ser_record(s[0].0, s[0].1) + (spec_ser_records(s.drop_first())
            + spec_ser_record(p, r)) =~= (spec_ser_record(s[0].0, s[0].1) + spec_ser_records(
            s.drop_first(),
        )) + spec_ser_record(p, r));
    }
}

/// Appends every character of `cs`.
fn push_chars(cs: &Vec<char>, out: &mut Vec<char>)
    ensures
        final(out)@ == old(out)@ + cs@,
{
    let mut i: usize = 0;
    while i < cs.len()
        invariant
            i <= cs.len(),
            out@ == old(out)@ + cs@.take(i as int),
        decreases cs.len() - i,
    {
        out.push(cs[i]);
        i = i + 1;
        proof {
            assert(old(out)@ + cs@.take(i as int) =~= (old(out)@ + cs@.take(i - 1)).push(
                cs@[i - 1],
            ));
        }
    }
    proof {
        assert(cs@.take(cs@.len() as int) =~= cs@);
    }
}

/// Appends one length-prefixed string field.
fn push_txt(s: &str, out: &mut Vec<char>)
    ensures
        final(out)@ == old(out)@ + spec_txt(s@),
        s@.len() <= u64::MAX,
{
    let cs = chars_of(s);
    let n = cs.len();
    push_dec20(n as u64, out);
    push_chars(&cs, out);
    proof {
        assert(out@ =~= old(out)@ + spec_txt(s@));
    }
}

/// Appends one serialized entry.
fn push_entry(e: &Entry<String, String>, out: &mut Vec<char>)
    ensures
        final(out)@ == old(out)@ + spec_ser_entry(e@),
        spec_entry_wf(e@),
{
    push_txt(e.path.as_str(), out);
    push_dec20(e.loc.line, out);
    push_dec20(e.loc.column, out);
    push_dec20(e.kind.code(), out);
    push_txt(e.text.as_str(), out);
    proof {
        assert(out@ =~= old(out)@ + spec_ser_entry(e@));
    }
}

/// Appends one serialized record.
fn push_record(path: &str, r: &Record, out: &mut Vec<char>)
    ensures
        final(out)@ == old(out)@ + spec_ser_record(path@, r@),
        path@.len() <= u64::MAX,
        spec_record_wf(r@),
{
    push_txt(path, out);
    push_dec20(r.mtime.secs, out);
    push_dec20(r.mtime.nanos as u64, out);
    let n = r.entries.len();
    push_dec20(n as u64, out);
    let ghost es = r.entries.deep_view();
    let ghost base = out@;
    let mut i: usize = 0;
    while i < n
        invariant
            i <= n,
            n == r.entries@.len(),
            es == r.entries.deep_view(),
            out@ == base + spec_ser_entries(es.take(i as int)),
            forall|j: int| 0 <= j < i ==> spec_entry_wf(#[trigger] es[j]),
        decreases n - i,
    {
        push_entry(&r.entries[i], out);
        proof {
            assert(es[i as int] == r.entries@[i as int]@);
            lemma_ser_entries_snoc(es.take(i as int), es[i as int]);
            assert(es.take(i + 1) =~= es.take(i as int).push(es[i as int]));
        }
        i = i + 1;
    }
    proof {
        assert(es.take(n as int) =~= es);
        assert(out@ =~= old(out)@ + spec_ser_record(path@, r@));
    }
}

/// Serializes the whole cache. The result is exactly `spec_serialize` of the
/// cache\'s value, and serializing also establishes that the value is within
/// the bounds under which reading it back is exact.
pub fn serialize_cache(cache: &Cache) -> (r: String)
    ensures
        r@ == spec_serialize(cache@),
        spec_model_wf(cache@),
{
    let recs = cache.records();
    let n = recs.len();
    let mut out: Vec<char> = Vec::new();
    push_dec20(n as u64, &mut out);
    let ghost m = cache@;
    let ghost base = out@;
    let mut i: usize = 0;
    while i < n
        invariant
            i <= n,
            n == m.len(),
            recs@.len() == m.len(),
            forall|j: int| 0 <= j < m.len() ==> m[j] == (#[trigger] recs@[j].0@, recs@[j].1@),
            base == spec_dec20(n as u64),
            out@ == base + spec_ser_records(m.take(i as int)),
            forall|j: int|
                0 <= j < i ==> (#[trigger] m[j].0).len() <= u64::MAX && spec_record_wf(m[j].1),
        decreases n - i,
    {
        push_record(recs[i].0.as_str(), &recs[i].1, &mut out);
        proof {
            lemma_ser_records_snoc(m.take(i as int), m[i as int].0, m[i as int].1);
            assert(m.take(i + 1) =~= m.take(i as int).push(m[i as int]));
            assert((m[i as int].0, m[i as int].1) == m[i as int]);
        }
        i = i + 1;
    }
    proof {
        assert(m.take(n as int) =~= m);
        assert(out@ =~= spec_serialize(m));
    }
    string_of(&out)
}

/// The characters of `v` from `i` to `i + n`.
fn take_chars(v: &Vec<char>, i: usize, n: usize) -> (r: Vec<char>)
    requires
        i + n <= v@.len(),
    ensures
        r@ == v@.subrange(i as int, i + n),
{
    let vl = v.len();
    let mut r: Vec<char> = Vec::new();
    let mut j: usize = 0;
    while j < n
        invariant
            j <= n,
            vl == v@.len(),
            i + n <= vl,
            r@ == v@.subrange(i as int, i + j),
        decreases n - j,
    {
        r.push(v[i + j]);
        j = j + 1;
        proof {
            assert(v@.subrange(i as int, i + j) =~= v@.subrange(i as int, i + j - 1).push(
                v@[i + j - 1],
            ));
        }
    }
    r
}

/// Reads one length-prefixed string field at `i`.
fn parse_txt_at(v: &Vec<char>, i: usize) -> (r: Option<(String, usize)>)
    requires
        i <= v@.len(),
    ensures
        match spec_parse_txt(v@.skip(i as int)) {
            Some((x, rest)) => {
                &&& r is Some
                &&& r->Some_0.0@ == x
                &&& r->Some_0.1 <= v@.len()
                &&& rest == v@.skip(r->Some_0.1 as int)
            },
            None => r is None,
        },
{
    let ghost s = v@.skip(i as int);
    match parse_num(v, i) {
        None => None,
        Some((n, j)) => {
            let remaining = v.len() - j;
            if n > remaining as u64 {
                proof {
                    assert(v@.skip(j as int).len() < n);
                }
                None
            } else {
                let cs = take_chars(v, j, n as usize);
                let j2 = j + n as usize;
                proof {
                    assert(v@.skip(j as int).take(n as int) =~= v@.subrange(
                        j as int,
                        j + n as int,
                    ));
                    assert(v@.skip(j as int).skip(n as int) =~= v@.skip(j2 as int));
                }
                Some((string_of(&cs), j2))
            }
        },
    }
}

/// Reads one serialized entry at `i`.
fn parse_entry_at(v: &Vec<char>, i: usize) -> (r: Option<(Entry<String, String>, usize)>)
    requires
        i <= v@.len(),
    ensures
        match spec_parse_entry(v@.skip(i as int)) {
            Some((m, rest)) => {
                &&& r is Some
                &&& r->Some_0.0@ == m
                &&& r->Some_0.1 <= v@.len()
                &&& rest == v@.skip(r->Some_0.1 as int)
            },
            None => r is None,
        },
{
    let vl = v.len();
    proof {
        assert(v@.len() <= usize::MAX);
    }
    let ghost s0 = v@.skip(i as int);
    let (path, i1) = match parse_txt_at(v, i) {
        None => {
            return None;
        },
        Some(x) => x,
    };
    let ghost s1 = v@.skip(i1 as int);
    proof {
        assert(spec_parse_txt(s0) == Some((path@, s1)));
    }
    let (line, i2) = match parse_num(v, i1) {
        None => {
            return None;
        },
        Some(x) => x,
    };
    let ghost s2 = v@.skip(i2 as int);
    proof {
        assert(spec_parse_num(s1) == Some((line, s2)));
    }
    let (column, i3) = match parse_num(v, i2) {
        None => {
            return None;
        },
        Some(x) => x,
    };
    let ghost s3 = v@.skip(i3 as int);
    proof {
        assert(spec_parse_num(s2) == Some((column, s3)));
    }
    let (code, i4) = match parse_num(v, i3) {
        None => {
            return None;
        },
        Some(x) => x,
    };
    let ghost s4 = v@.skip(i4 as int);
    proof {
        assert(spec_parse_num(s3) == Some((code, s4)));
    }
    let kind = match Kind::of_code(code) {
        None => {
            return None;
        },
        Some(k) => k,
    };
    let (text, i5) = match parse_txt_at(v, i4) {
        None => {
            return None;
        },
        Some(x) => x,
    };
    let ghost s5 = v@.skip(i5 as int);
    proof {
        assert(spec_parse_txt(s4) == Some((text@, s5)));
    }
    Some((Entry::new(path, Loc::new(line, column), text, kind), i5))
}

/// Reads `k` serialized entries at `i`.
fn parse_entries_at(v: &Vec<char>, i: usize, k: u64) -> (r: Option<
    (Vec<Entry<String, String>>, usize),
>)
    requires
        i <= v@.len(),
    ensures
        match spec_parse_entries(v@.skip(i as int), k) {
            Some((ms, rest)) => {
                &&& r is Some
                &&& r->Some_0.0.deep_view() == ms
                &&& r->Some_0.1 <= v@.len()
                &&& rest == v@.skip(r->Some_0.1 as int)
            },
            None => r is None,
        },
    decreases k,
{
    if k == 0 {
        let empty: Vec<Entry<String, String>> = Vec::new();
        proof {
            assert(empty.deep_view() =~= Seq::<EntryModel>::empty());
        }
        Some((empty, i))
    } else {
        let (e, i1) = match parse_entry_at(v, i) {
            None => {
                return None;
            },
            Some(x) => x,
        };
        let (mut es, i2) = match parse_entries_at(v, i1, k - 1) {
            None => {
                return None;
            },
            Some(x) => x,
        };
        let ghost tail_view = es.deep_view();
        es.insert(0, e);
        proof {
            assert(es.deep_view() =~= seq![e@] + tail_view);
        }
        Some((es, i2))
    }
}

/// Reads one serialized record at `i`.
fn parse_record_at(v: &Vec<char>, i: usize) -> (r: Option<(String, Record, usize)>)
    requires
        i <= v@.len(),
    ensures
        match spec_parse_record(v@.skip(i as int)) {
            Some((pr, rest)) => {
                &&& r is Some
                &&& r->Some_0.0@ == pr.0
                &&& r->Some_0.1@ == pr.1
                &&& r->Some_0.2 <= v@.len()
                &&& rest == v@.skip(r->Some_0.2 as int)
            },
            None => r is None,
        },
{
    let vl = v.len();
    proof {
        assert(v@.len() <= usize::MAX);
    }
    let ghost s0 = v@.skip(i as int);
    let (path, i1) = match parse_txt_at(v, i) {
        None => {
            return None;
        },
        Some(x) => x,
    };
    let ghost s1 = v@.skip(i1 as int);
    proof {
        assert(spec_parse_txt(s0) == Some((path@, s1)));
    }
    let (secs, i2) = match parse_num(v, i1) {
        None => {
            return None;
        },
        Some(x) => x,
    };
    let ghost s2 = v@.skip(i2 as int);
    proof {
        assert(spec_parse_num(s1) == Some((secs, s2)));
    }
    let (nanos, i3) = match parse_num(v, i2) {
        None => {
            return None;
        },
        Some(x) => x,
    };
    let ghost s3 = v@.skip(i3 as int);
    proof {
        assert(spec_parse_num(s2) == Some((nanos, s3)));
    }
    if nanos > u32::MAX as u64 {
        return None;
    }
    let (k, i4) = match parse_num(v, i3) {
        None => {
            return None;
        },
        Some(x) => x,
    };
    let ghost s4 = v@.skip(i4 as int);
    proof {
        assert(spec_parse_num(s3) == Some((k, s4)));
    }
    let (entries, i5) = match parse_entries_at(v, i4, k) {
        None => {
            return None;
        },
        Some(x) => x,
    };
    let ghost s5 = v@.skip(i5 as int);
    proof {
        assert(spec_parse_entries(s4, k) == Some((entries.deep_view(), s5)));
    }
    let record = Record { mtime: Mtime { secs, nanos: nanos as u32 }, entries };
    Some((path, record, i5))
}

/// Reads `k` serialized records at `i`.
fn parse_records_at(v: &Vec<char>, i: usize, k: u64) -> (r: Option<
    (Vec<(String, Record)>, usize),
>)
    requires
        i <= v@.len(),
    ensures
        match spec_parse_records(v@.skip(i as int), k) {
            Some((ms, rest)) => {
                &&& r is Some
                &&& spec_assoc_view(r->Some_0.0@) == ms
                &&& r->Some_0.1 <= v@.len()
                &&& rest == v@.skip(r->Some_0.1 as int)
            },
            None => r is None,
        },
    decreases k,
{
    if k == 0 {
        let empty: Vec<(String, Record)> = Vec::new();
        proof {
            assert(spec_assoc_view(empty@) =~= Seq::<(Seq<char>, RecordModel)>::empty());
        }
        Some((empty, i))
    } else {
        let (path, record, i1) = match parse_record_at(v, i) {
            None => {
                return None;
            },
            Some(x) => x,
        };
        let (mut rs, i2) = match parse_records_at(v, i1, k - 1) {
            None => {
                return None;
            },
            Some(x) => x,
        };
        let ghost tail_view = spec_assoc_view(rs@);
        let ghost pr = (path@, record@);
        rs.insert(0, (path, record));
        proof {
            assert(spec_assoc_view(rs@) =~= seq![pr] + tail_view);
        }
        Some((rs, i2))
    }
}

/// The value a vector of owned associations stands for.
pub open spec fn spec_assoc_view(v: Seq<(String, Record)>) -> Seq<(Seq<char>, RecordModel)> {
    Seq::new(v.len(), |i: int| (v[i].0@, v[i].1@))
}

/// Reads a whole serialized store.
fn parse_cache_chars(v: &Vec<char>) -> (r: Option<Vec<(String, Record)>>)
    ensures
        match spec_parse_cache(v@) {
            Some(m) => r is Some && spec_assoc_view(r->Some_0@) == m,
            None => r is None,
        },
{
    proof {
        assert(v@.skip(0) =~= v@);
    }
    let (k, i1) = match parse_num(v, 0) {
        None => {
            return None;
        },
        Some(x) => x,
    };
    let (rs, i2) = match parse_records_at(v, i1, k) {
        None => {
            return None;
        },
        Some(x) => x,
    };
    if i2 != v.len() {
        return None;
    }
    proof {
        assert(v@.skip(i2 as int).len() == 0);
    }
    Some(rs)
}

/// What loading a store's text yields: the stored mapping when it reads
/// back whole with unique paths, the empty mapping otherwise.
pub open spec fn spec_load(s: Seq<char>) -> Seq<(Seq<char>, RecordModel)> {
    match spec_parse_cache(s) {
        Some(m) => if spec_keys_distinct(m) {
            m
        } else {
            Seq::empty()
        },
        None => Seq::empty(),
    }
}

/// The not-yet-inserted associations still line up with the parsed model.
pub open spec fn spec_tail_matches(
    l: Seq<(String, Record)>,
    m: Seq<(Seq<char>, RecordModel)>,
    i: int,
) -> bool {
    forall|j: int| 0 <= j < l.len() ==> m[i + j] == (#[trigger] l[j].0@, l[j].1@)
}

/// Rebuilds a cache from the text of the on-disk store. A malformed store —
/// unreadable fields, or two records for one path — yields the empty cache
/// rather than an error.
pub fn load_cache(content: &str) -> (c: Cache)
    ensures
        c.wf(),
        c@ == spec_load(content@),
{
    let v = chars_of(content);
    let list = match parse_cache_chars(&v) {
        None => {
            return Cache::new();
        },
        Some(l) => l,
    };
    let ghost m = spec_assoc_view(list@);
    let n = list.len();
    let mut list = list;
    let mut cache = Cache::new();
    let mut i: usize = 0;
    while i < n
        invariant
            i <= n,
            n == i + list@.len(),
            m.len() == n,
            spec_parse_cache(content@) == Some(m),
            spec_tail_matches(list@, m, i as int),
            cache.wf(),
            cache@ == m.take(i as int),
            spec_keys_distinct(m.take(i as int)),
        decreases n - i,
    {
        let ghost before = list@;
        let (path, record) = list.remove(0);
        proof {
            assert(path@ == m[i as int].0 && record@ == m[i as int].1);
            assert forall|j: int| 0 <= j < list@.len() implies m[i + 1 + j] == ((
            #[trigger] list@[j]).0@, list@[j].1@) by {
                assert(list@[j] == before[j + 1]);
            }
            assert(spec_tail_matches(list@, m, i + 1));
        }
        let dup = cache.lookup(path.as_str());
        if dup.is_some() {
            proof {
                match spec_find(cache@, path@) {
                    Some(found) => {
                        crate::cache::lemma_find_index(m.take(i as int), path@, found);
                    },
                    None => {
                        assert(false);
                    },
                }
                let jj = choose|jj: int|
                    0 <= jj < m.take(i as int).len() && m.take(i as int)[jj] == (
                    path@,
                    spec_find(cache@, path@)->Some_0,
                    );
                assert(m[jj].0 == path@ && m[i as int].0 == path@);
                assert(!spec_keys_distinct(m));
            }
            return Cache::new();
        }
        proof {
            crate::cache::lemma_find_none(cache@, path@);
            crate::cache::lemma_insert_absent(cache@, path@, record@);
        }
        let ghost prev = cache@;
        cache.insert_or_replace(path, record);
        proof {
            assert(cache@ == prev.push((m[i as int].0, m[i as int].1)));
            assert((m[i as int].0, m[i as int].1) == m[i as int]);
            assert(cache@ =~= m.take(i + 1));
            assert forall|a: int, b: int|
                0 <= a < b < i + 1 implies (#[trigger] m.take(i + 1)[a]).0 != (#[trigger] m.take(
                i + 1,
            )[b]).0 by {
                if b < i {
                    assert(m.take(i as int)[a].0 != m.take(i as int)[b].0);
                } else {
                    assert(spec_find(prev, path@) == None::<RecordModel>);
                    assert(m.take(i as int)[a].0 != path@);
                    assert(m.take(i + 1)[b].0 == path@);
                }
            }
            assert(spec_keys_distinct(m.take(i + 1)));
        }
        i = i + 1;
    }
    proof {
        assert(m.take(n as int) =~= m);
    }
    cache
}

/// Round-trip, end to end: loading the serialized form of any cache with
/// unique paths reproduces its mapping exactly.
pub proof fn lemma_load_serialize(s: Seq<(Seq<char>, RecordModel)>)
    requires
        spec_model_wf(s),
        spec_keys_distinct(s),
    ensures
        spec_load(spec_serialize(s)) == s,
{
    lemma_round_trip(s);
}

} // verus!
