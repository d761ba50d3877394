use vstd::prelude::*;
use crate::graph::{Edge, EdgeM, Graph};

verus! {

/// How ingestion can fail: the path could not be read, the compressed stream
/// could not be decoded, or a decoded line was malformed.
#[derive(Clone, Copy, PartialEq, Eq, Structural, Debug)]
pub enum IngestError {
    Open,
    Decode,
    Parse,
}

/// One input record: a directed interaction from `source`.
pub ghost struct RecordM {
    pub source: usize,
    pub target: usize,
    pub timestamp: u64,
    pub kind: Seq<char>,
}

pub open spec fn to_edge(r: RecordM) -> EdgeM {
    EdgeM { target: r.target, timestamp: r.timestamp, kind: r.kind }
}

/// ASCII whitespace, as trimmed from the ends of a line.
pub open spec fn is_ws(b: u8) -> bool {
    b == 32 || b == 9 || b == 10 || b == 11 || b == 12 || b == 13
}

pub open spec fn is_digit(b: u8) -> bool {
    48 <= b <= 57
}

/// The number written by a run of decimal digits (most significant first).
pub open spec fn digits_val(s: Seq<u8>) -> nat
    decreases s.len(),
{
    if s.len() == 0 {
        0
    } else {
        (digits_val(s.drop_last()) * 10 + (s.last() - 48)) as nat
    }
}

/// A non-empty, all-digit field.
pub open spec fn all_digits(s: Seq<u8>) -> bool {
    s.len() > 0 && forall|i: int| 0 <= i < s.len() ==> is_digit(#[trigger] s[i])
}

pub open spec fn all_ascii(s: Seq<u8>) -> bool {
    forall|i: int| 0 <= i < s.len() ==> #[trigger] s[i] < 128
}

pub open spec fn trim_front(s: Seq<u8>) -> Seq<u8>
    decreases s.len(),
{
    if s.len() > 0 && is_ws(s[0]) {
        trim_front(s.drop_first())
    } else {
        s
    }
}

pub open spec fn trim_back(s: Seq<u8>) -> Seq<u8>
    decreases s.len(),
{
    if s.len() > 0 && is_ws(s.last()) {
        trim_back(s.drop_last())
    } else {
        s
    }
}

/// A line with its surrounding ASCII whitespace removed.
pub open spec fn trim_spec(s: Seq<u8>) -> Seq<u8> {
    trim_back(trim_front(s))
}

/// Split on single ASCII spaces; adjacent separators yield empty fields.
/// The empty sequence holds one empty field.
pub open spec fn split_sp(s: Seq<u8>) -> Seq<Seq<u8>>
    decreases s.len(),
{
    if s.len() == 0 {
        seq![Seq::empty()]
    } else if s.last() == 32 {
        split_sp(s.drop_last()).push(Seq::empty())
    } else {
        let r = split_sp(s.drop_last());
        r.update(r.len() - 1, r.last().push(s.last()))
    }
}

/// The record a line denotes, if it is well-formed: trimmed, it must split on
/// single spaces into exactly four fields — three decimal integers that fit
/// the host types, then a non-empty ASCII kind tag.
pub open spec fn spec_line_record(line: Seq<u8>) -> Option<RecordM> {
    let fs = split_sp(trim_spec(line));
    if fs.len() == 4 && all_digits(fs[0]) && digits_val(fs[0]) <= usize::MAX && all_digits(fs[1])
        && digits_val(fs[1]) <= usize::MAX && all_digits(fs[2]) && digits_val(fs[2]) <= u64::MAX
        && fs[3].len() > 0 && all_ascii(fs[3]) {
        Some(
            RecordM {
                source: digits_val(fs[0]) as usize,
                target: digits_val(fs[1]) as usize,
                timestamp: digits_val(fs[2]) as u64,
                kind: fs[3].map_values(|b: u8| b as char),
            },
        )
    } else {
        None
    }
}

/// The text up to (not including) the first newline byte, or all of it.
pub open spec fn first_line(s: Seq<u8>) -> Seq<u8>
    decreases s.len(),
{
    if s.len() == 0 {
        Seq::empty()
    } else if s[0] == 10 {
        Seq::empty()
    } else {
        seq![s[0]] + first_line(s.drop_first())
    }
}

/// The lines of the decoded text, split on newline bytes.  A final newline
/// closes the last line; it does not open an empty one.
pub open spec fn spec_lines(s: Seq<u8>) -> Seq<Seq<u8>>
    decreases s.len(),
{
    if s.len() == 0 {
        Seq::empty()
    } else {
        let fl = first_line(s);
        if fl.len() >= s.len() {
            seq![fl]
        } else {
            seq![fl] + spec_lines(s.skip(fl.len() as int + 1))
        }
    }
}

/// Whether every line of the text denotes a record.
pub open spec fn all_lines_ok(data: Seq<u8>) -> bool {
    forall|i: int| 0 <= i < spec_lines(data).len()
        ==> spec_line_record(#[trigger] spec_lines(data)[i]) is Some
}

/// The records of the text, line by line (meaningful when `all_lines_ok`).
pub open spec fn spec_records(data: Seq<u8>) -> Seq<RecordM> {
    spec_lines(data).map_values(|l: Seq<u8>| spec_line_record(l)->Some_0)
}

/// The edges among `recs` whose source is `s`, in order.
pub open spec fn edges_for(recs: Seq<RecordM>, s: usize) -> Seq<EdgeM>
    decreases recs.len(),
{
    if recs.len() == 0 {
        Seq::empty()
    } else {
        let e = edges_for(recs.drop_last(), s);
        if recs.last().source == s {
            e.push(to_edge(recs.last()))
        } else {
            e
        }
    }
}

/// There is a record among `recs` with source `s`.
pub open spec fn some_record_from(recs: Seq<RecordM>, s: usize) -> bool {
    exists|i: int| 0 <= i < recs.len() && (#[trigger] recs[i]).source == s
}

/// What a parsed graph holds, relative to the decoded text: every line
/// contributed exactly one edge to the adjacency of its source, in file
/// order, and nothing else is present.
pub open spec fn parse_post(data: Seq<u8>, g: Graph) -> bool {
    &&& all_lines_ok(data)
    &&& g.wf()
    &&& g.n_edges == spec_records(data).len()
    &&& forall|s: usize| g.spec_edges(s) == edges_for(spec_records(data), s)
    &&& forall|s: usize| g.contains_source(s) <==> some_record_from(spec_records(data), s)
}

fn is_ws_byte(b: u8) -> (r: bool)
    ensures
        r == is_ws(b),
{
    b == 32 || b == 9 || b == 10 || b == 11 || b == 12 || b == 13
}

/// The value of a digit prefix never exceeds the value of the whole run.
proof fn lemma_digits_val_prefix(s: Seq<u8>, m: int)
    requires
        0 <= m <= s.len(),
        forall|k: int| m <= k < s.len() ==> is_digit(#[trigger] s[k]),
    ensures
        digits_val(s.take(m)) <= digits_val(s),
    decreases s.len() - m,
{
    if m < s.len() {
        assert(s.take(m + 1).drop_last() =~= s.take(m));
        assert(s.take(m + 1).last() == s[m]);
        assert(digits_val(s.take(m)) <= digits_val(s.take(m + 1)));
        lemma_digits_val_prefix(s, m + 1);
    } else {
        assert(s.take(m) =~= s);
    }
}

/// Parse a base-10 field as a 64-bit value: defined exactly when the field
/// is a non-empty digit run whose value fits.
fn parse_u64_field(f: &Vec<u8>) -> (r: Option<u64>)
    ensures
        r is Some <==> all_digits(f@) && digits_val(f@) <= u64::MAX,
        r is Some ==> r->Some_0 == digits_val(f@),
{
    let n = f.len();
    if n == 0 {
        return None;
    }
    let mut acc: u64 = 0;
    for i in 0..n
        invariant
            n == f@.len(),
            forall|k: int| 0 <= k < i ==> is_digit(#[trigger] f@[k]),
            acc == digits_val(f@.take(i as int)),
    {
        let b = f[i];
        if b < 48 || b > 57 {
            proof {
                assert(!is_digit(f@[i as int]));
            }
            return None;
        }
        let d = (b - 48) as u64;
        proof {
            assert(f@.take(i + 1).drop_last() =~= f@.take(i as int));
            assert(f@.take(i + 1).last() == b);
            assert(digits_val(f@.take(i + 1)) == acc * 10 + d);
        }
        if acc > u64::MAX / 10 || (acc == u64::MAX / 10 && d > u64::MAX % 10) {
            proof {
                assert(acc * 10 + d > u64::MAX);
                if all_digits(f@) {
                    lemma_digits_val_prefix(f@, i + 1);
                }
            }
            return None;
        }
        acc = acc * 10 + d;
    }
    proof {
        assert(f@.take(n as int) =~= f@);
    }
    Some(acc)
}

/// Parse a base-10 field as a host-width value: defined exactly when the
/// field is a non-empty digit run whose value fits.
fn parse_usize_field(f: &Vec<u8>) -> (r: Option<usize>)
    ensures
        r is Some <==> all_digits(f@) && digits_val(f@) <= usize::MAX,
        r is Some ==> r->Some_0 == digits_val(f@),
{
    match parse_u64_field(f) {
        Some(v) => {
            if v <= usize::MAX as u64 {
                Some(v as usize)
            } else {
                None
            }
        },
        None => None,
    }
}

/// Relies on `String::from_utf8`: bytes below 128 are valid UTF-8 and decode
/// one-to-one to the characters with the same code points.
#[verifier::external_body]
fn ascii_to_string(bytes: &Vec<u8>) -> (r: String)
    requires
        all_ascii(bytes@),
    ensures
        r@ == bytes@.map_values(|b: u8| b as char),
{
    match String::from_utf8(bytes.clone()) {
        Ok(s) => s,
        Err(_) => String::new(),
    }
}

/// Parse one line into its source vertex and edge.  Succeeds exactly when
/// the line is well-formed as `spec_line_record` lays down.
fn parse_line(line: &Vec<u8>) -> (r: Result<(usize, Edge), IngestError>)
    ensures
        r is Ok <==> spec_line_record(line@) is Some,
        r matches Ok(p) ==> {
            let rec = spec_line_record(line@)->Some_0;
            p.0 == rec.source && p.1@ == to_edge(rec)
        },
        r matches Err(e) ==> e == IngestError::Parse,
{
    let n = line.len();
    proof {
        assert(line@.subrange(0, n as int) =~= line@);
    }
    let mut lo: usize = 0;
    while lo < n && is_ws_byte(line[lo])
        invariant
            n == line@.len(),
            lo <= n,
            trim_front(line@.subrange(lo as int, n as int)) == trim_front(line@),
        decreases n - lo,
    {
        proof {
            assert(line@.subrange(lo as int, n as int).drop_first() =~= line@.subrange(
                lo + 1,
                n as int,
            ));
        }
        lo = lo + 1;
    }
    proof {
        assert(trim_front(line@) == line@.subrange(lo as int, n as int)) by {
            if lo < n {
                assert(!is_ws(line@.subrange(lo as int, n as int)[0]));
            }
        }
    }
    let mut hi: usize = n;
    while hi > lo && is_ws_byte(line[hi - 1])
        invariant
            n == line@.len(),
            lo <= hi <= n,
            trim_back(line@.subrange(lo as int, hi as int)) == trim_back(
                line@.subrange(lo as int, n as int),
            ),
        decreases hi,
    {
        proof {
            assert(line@.subrange(lo as int, hi as int).drop_last() =~= line@.subrange(
                lo as int,
                hi - 1,
            ));
        }
        hi = hi - 1;
    }
    let ghost t = line@.subrange(lo as int, hi as int);
    proof {
        assert(trim_spec(line@) == t) by {
            if hi > lo {
                assert(!is_ws(t.last()));
            }
        }
    }
    let mut fields: Vec<Vec<u8>> = Vec::new();
    fields.push(Vec::new());
    proof {
        assert(fields@.map_values(|f: Vec<u8>| f@) =~= split_sp(t.take(0)));
        assert(t.take(0) =~= Seq::<u8>::empty());
    }
    let mut idx: usize = lo;
    while idx < hi
        invariant
            n == line@.len(),
            lo <= idx <= hi <= n,
            t == line@.subrange(lo as int, hi as int),
            fields@.len() >= 1,
            fields@.map_values(|f: Vec<u8>| f@) == split_sp(t.take(idx - lo)),
        decreases hi - idx,
    {
        let b = line[idx];
        proof {
            assert(t.take(idx - lo + 1).drop_last() =~= t.take(idx - lo));
            assert(t.take(idx - lo + 1).last() == b);
        }
        if b == 32 {
            fields.push(Vec::new());
            proof {
                assert(fields@.map_values(|f: Vec<u8>| f@) =~= split_sp(t.take(idx - lo)).push(
                    Seq::empty(),
                ));
            }
        } else {
            let li = fields.len() - 1;
            fields[li].push(b);
            proof {
                let prev = split_sp(t.take(idx - lo));
                assert(fields@.map_values(|f: Vec<u8>| f@) =~= prev.update(
                    prev.len() - 1,
                    prev.last().push(b),
                ));
            }
        }
        idx = idx + 1;
    }
    proof {
        assert(t.take(hi - lo) =~= t);
        assert(fields@.map_values(|f: Vec<u8>| f@) == split_sp(t));
    }
    if fields.len() != 4 {
        return Err(IngestError::Parse);
    }
    proof {
        assert(fields@[0]@ == split_sp(t)[0]);
        assert(fields@[1]@ == split_sp(t)[1]);
        assert(fields@[2]@ == split_sp(t)[2]);
        assert(fields@[3]@ == split_sp(t)[3]);
    }
    let source = match parse_usize_field(&fields[0]) {
        Some(v) => v,
        None => {
            return Err(IngestError::Parse);
        },
    };
    let target = match parse_usize_field(&fields[1]) {
        Some(v) => v,
        None => {
            return Err(IngestError::Parse);
        },
    };
    let timestamp = match parse_u64_field(&fields[2]) {
        Some(v) => v,
        None => {
            return Err(IngestError::Parse);
        },
    };
    if fields[3].len() == 0 {
        return Err(IngestError::Parse);
    }
    let kf = &fields[3];
    let kn = kf.len();
    let mut ascii_ok = true;
    for ki in 0..kn
        invariant
            kn == kf@.len(),
            ascii_ok == all_ascii(kf@.take(ki as int)),
    {
        proof {
            assert(kf@.take(ki + 1).drop_last() =~= kf@.take(ki as int));
            assert(kf@.take(ki + 1).last() == kf@[ki as int]);
            assert forall|k: int| 0 <= k < ki + 1 && all_ascii(kf@.take(ki as int))
                && kf@[ki as int] < 128 implies #[trigger] kf@.take(ki + 1)[k] < 128 by {
                if k < ki as int {
                    assert(kf@.take(ki as int)[k] < 128);
                }
            }
        }
        if kf[ki] >= 128 {
            ascii_ok = false;
            proof {
                assert(kf@.take(ki + 1)[ki as int] >= 128);
            }
        } else {
            proof {
                if !ascii_ok {
                    let k = choose|k: int|
                        0 <= k < ki as int && !(#[trigger] kf@.take(ki as int)[k] < 128);
                    assert(kf@.take(ki + 1)[k] >= 128);
                }
            }
        }
    }
    proof {
        assert(kf@.take(kn as int) =~= kf@);
    }
    if !ascii_ok {
        proof {
            assert(!all_ascii(fields@[3]@));
        }
        return Err(IngestError::Parse);
    }
    let kind = ascii_to_string(&fields[3]);
    Ok((source, Edge::new(target, timestamp, kind)))
}

/// An empty line denotes no record.
proof fn lemma_empty_line_rejected()
    ensures
        spec_line_record(Seq::<u8>::empty()) is None,
{
    assert(trim_spec(Seq::<u8>::empty()) == Seq::<u8>::empty());
    assert(split_sp(Seq::<u8>::empty()).len() == 1);
}

/// Build the graph from decompressed text: split into lines, parse each line
/// as a record, and append its edge to the adjacency of its source.  Fails
/// with `Parse` exactly when some line is malformed.
pub fn parse_dataset(data: &Vec<u8>) -> (r: Result<Graph, IngestError>)
    ensures
        r is Ok <==> all_lines_ok(data@),
        r matches Ok(g) ==> parse_post(data@, g),
        r matches Err(e) ==> e == IngestError::Parse,
{
    let mut g = Graph::new();
    let mut line: Vec<u8> = Vec::new();
    let ghost mut lines_done: Seq<Seq<u8>> = Seq::empty();
    let ghost mut recs: Seq<RecordM> = Seq::empty();
    let mut line_start: usize = 0;
    let n = data.len();
    proof {
        assert(data@.skip(0) =~= data@);
        assert(lines_done + spec_lines(data@) =~= spec_lines(data@));
        assert(line@ + first_line(data@) =~= first_line(data@));
    }
    for idx in 0..n
        invariant
            n == data@.len(),
            line_start <= idx <= n,
            line@.len() == idx - line_start,
            spec_lines(data@) == lines_done + spec_lines(data@.skip(line_start as int)),
            first_line(data@.skip(line_start as int)) == line@ + first_line(
                data@.skip(idx as int),
            ),
            forall|k: int| 0 <= k < lines_done.len()
                ==> spec_line_record(#[trigger] lines_done[k]) is Some,
            recs == lines_done.map_values(|l: Seq<u8>| spec_line_record(l)->Some_0),
            2 * lines_done.len() <= line_start,
            g.wf(),
            g.n_edges == recs.len(),
            forall|s: usize| g.spec_edges(s) == edges_for(recs, s),
            forall|s: usize| g.contains_source(s) <==> some_record_from(recs, s),
    {
        let b = data[idx];
        proof {
            assert(data@.skip(idx as int)[0] == b);
            assert(data@.skip(idx as int).drop_first() =~= data@.skip(idx + 1));
        }
        if b == 10 {
            proof {
                assert(first_line(data@.skip(idx as int)) == Seq::<u8>::empty());
                assert(first_line(data@.skip(line_start as int)) =~= line@);
                let rest = data@.skip(line_start as int);
                assert(rest.len() == n - line_start > idx - line_start);
                assert(spec_lines(rest) == seq![line@] + spec_lines(
                    rest.skip(line@.len() as int + 1),
                ));
                assert(rest.skip(line@.len() as int + 1) =~= data@.skip(idx + 1));
            }
            match parse_line(&line) {
                Ok((src, e)) => {
                    proof {
                        lemma_empty_line_rejected();
                        assert(line@.len() >= 1) by {
                            if line@.len() == 0 {
                                assert(line@ =~= Seq::<u8>::empty());
                            }
                        }
                        assert(recs.len() < usize::MAX);
                    }
                    g.add_edge(src, e);
                    proof {
                        let rec = spec_line_record(line@)->Some_0;
                        let recs_new = recs.push(rec);
                        assert(recs_new.drop_last() =~= recs);
                        assert forall|s: usize| g.spec_edges(s) == edges_for(recs_new, s) by {
                            if s == rec.source {
                                assert(edges_for(recs_new, s) == edges_for(recs, s).push(
                                    to_edge(rec),
                                ));
                            } else {
                                assert(edges_for(recs_new, s) == edges_for(recs, s));
                            }
                        }
                        assert forall|s: usize| g.contains_source(s)
                            implies some_record_from(recs_new, s) by {
                            if s == rec.source {
                                assert(recs_new[recs_new.len() - 1].source == s);
                            } else {
                                let k = choose|k: int|
                                    0 <= k < recs.len() && (#[trigger] recs[k]).source == s;
                                assert(recs_new[k].source == s);
                            }
                        }
                        assert forall|s: usize| some_record_from(recs_new, s)
                            implies g.contains_source(s) by {
                            let k = choose|k: int|
                                0 <= k < recs_new.len() && (#[trigger] recs_new[k]).source == s;
                            if k < recs.len() {
                                assert(recs[k].source == s);
                            }
                        }
                        lines_done = lines_done.push(line@);
                        recs = recs_new;
                        assert(recs =~= lines_done.map_values(
                            |l: Seq<u8>| spec_line_record(l)->Some_0,
                        ));
                    }
                    line.clear();
                    line_start = idx + 1;
                    proof {
                        assert(data@.skip(line_start as int) =~= data@.skip(idx + 1));
                        assert(line@ + first_line(data@.skip(idx + 1)) =~= first_line(
                            data@.skip(idx + 1),
                        ));
                    }
                },
                Err(_) => {
                    proof {
                        assert(spec_lines(data@)[lines_done.len() as int] == line@);
                        assert(spec_line_record(line@) is None);
                    }
                    return Err(IngestError::Parse);
                },
            }
        } else {
            line.push(b);
            proof {
                assert(first_line(data@.skip(idx as int)) == seq![b] + first_line(
                    data@.skip(idx + 1),
                ));
                assert(line@ + first_line(data@.skip(idx + 1)) =~= first_line(
                    data@.skip(line_start as int),
                ));
            }
        }
    }
    proof {
        assert(data@.skip(n as int) =~= Seq::<u8>::empty());
        assert(first_line(data@.skip(n as int)) == Seq::<u8>::empty());
        assert(first_line(data@.skip(line_start as int)) =~= line@);
    }
    if line.len() > 0 {
        proof {
            let rest = data@.skip(line_start as int);
            assert(rest.len() == n - line_start);
            assert(first_line(rest).len() >= rest.len());
            assert(spec_lines(rest) == seq![line@]);
        }
        match parse_line(&line) {
            Ok((src, e)) => {
                proof {
                    assert(recs.len() < usize::MAX);
                }
                g.add_edge(src, e);
                proof {
                    let rec = spec_line_record(line@)->Some_0;
                    let recs_new = recs.push(rec);
                    assert(recs_new.drop_last() =~= recs);
                    assert forall|s: usize| g.spec_edges(s) == edges_for(recs_new, s) by {
                        if s == rec.source {
                            assert(edges_for(recs_new, s) == edges_for(recs, s).push(
                                to_edge(rec),
                            ));
                        } else {
                            assert(edges_for(recs_new, s) == edges_for(recs, s));
                        }
                    }
                    assert forall|s: usize| g.contains_source(s)
                        implies some_record_from(recs_new, s) by {
                        if s == rec.source {
                            assert(recs_new[recs_new.len() - 1].source == s);
                        } else {
                            let k = choose|k: int|
                                0 <= k < recs.len() && (#[trigger] recs[k]).source == s;
                            assert(recs_new[k].source == s);
                        }
                    }
                    assert forall|s: usize| some_record_from(recs_new, s)
                        implies g.contains_source(s) by {
                        let k = choose|k: int|
                            0 <= k < recs_new.len() && (#[trigger] recs_new[k]).source == s;
                        if k < recs.len() {
                            assert(recs[k].source == s);
                        }
                    }
                    lines_done = lines_done.push(line@);
                    recs = recs_new;
                    assert(recs =~= lines_done.map_values(
                        |l: Seq<u8>| spec_line_record(l)->Some_0,
                    ));
                    assert(spec_lines(data@) =~= lines_done);
                    assert(spec_records(data@) =~= recs);
                }
                Ok(g)
            },
            Err(_) => {
                proof {
                    assert(spec_lines(data@)[lines_done.len() as int] == line@);
                }
                Err(IngestError::Parse)
            },
        }
    } else {
        proof {
            assert(line@ =~= Seq::<u8>::empty());
            assert(line_start == n);
            assert(spec_lines(data@.skip(n as int)) == Seq::<Seq<u8>>::empty());
            assert(spec_lines(data@) =~= lines_done);
            assert(spec_records(data@) =~= recs);
        }
        Ok(g)
    }
}

/// What the gzip decoder yields for a compressed byte stream: a function of
/// those bytes alone.
pub uninterp spec fn gunzip_of(data: Seq<u8>) -> Seq<u8>;

/// Whether a compressed byte stream decodes at all: like the decoded bytes
/// themselves, a function of those bytes alone.
pub uninterp spec fn gunzip_ok(data: Seq<u8>) -> bool;

/// Relies on flate2's `GzDecoder` over an in-memory slice: whether decoding
/// succeeds, and the decompressed bytes when it does, are functions of the
/// input alone; a corrupt stream is reported as an error, never a panic.
#[verifier::external_body]
fn gunzip(data: &Vec<u8>) -> (r: Result<Vec<u8>, IngestError>)
    ensures
        r is Ok <==> gunzip_ok(data@),
        r matches Ok(v) ==> v@ == gunzip_of(data@),
        r matches Err(e) ==> e == IngestError::Decode,
{
    let mut decoder = flate2::read::GzDecoder::new(data.as_slice());
    let mut out: Vec<u8> = Vec::new();
    match std::io::Read::read_to_end(&mut decoder, &mut out) {
        Ok(_) => Ok(out),
        Err(_) => Err(IngestError::Decode),
    }
}

/// Ingest the gzip-compressed dataset: decompress the bytes, then parse
/// every line into an edge of the graph.  The call succeeds exactly when the
/// stream decodes and every decoded line denotes a record; `Decode` comes
/// exactly on a stream that does not decode, and `Parse` exactly on one that
/// decodes to text with a malformed line.
pub fn load_higgs_dataset(compressed: &Vec<u8>) -> (r: Result<Graph, IngestError>)
    ensures
        r is Ok <==> gunzip_ok(compressed@) && all_lines_ok(gunzip_of(compressed@)),
        r matches Ok(g) ==> parse_post(gunzip_of(compressed@), g),
        !gunzip_ok(compressed@) ==> r == Err::<Graph, IngestError>(IngestError::Decode),
        gunzip_ok(compressed@) && !all_lines_ok(gunzip_of(compressed@))
            ==> r == Err::<Graph, IngestError>(IngestError::Parse),
{
    let text = match gunzip(compressed) {
        Ok(t) => t,
        Err(e) => {
            return Err(e);
        },
    };
    parse_dataset(&text)
}

} // verus!
