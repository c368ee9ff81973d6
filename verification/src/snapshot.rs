//! The binary snapshot envelope: a self-contained encoding of every
//! partition's serialized filter plus its window, the optional overflow
//! entry, and aggregate metadata.
//!
//! The format is length-prefixed throughout: every integer is a little-endian
//! `u64`, every byte string and name is preceded by its length. Decoding
//! reads exactly one envelope from the front of the payload and tolerates
//! trailing bytes; it fails on any structural violation.

use vstd::prelude::*;
use vstd::bytes::{
    spec_u64_to_le_bytes, spec_u64_from_le_bytes, lemma_auto_spec_u64_to_from_le_bytes,
    u64_to_le_bytes, u64_from_le_bytes,
};
use vstd::utf8::{valid_utf8, decode_utf8, encode_utf8, encode_utf8_valid_utf8, encode_utf8_decode_utf8};
use vstd::slice::{slice_subrange, slice_to_vec};
use vstd::string::StrSliceExecFns;
use crate::date::{Date, valid_date, date_lt};
use crate::errors::SnapshotError;

verus! {

/// A wall-clock instant, to second resolution.
#[derive(Clone, Copy, PartialEq, Eq, Structural, Debug)]
pub struct Timestamp {
    pub year: u32,
    pub month: u32,
    pub day: u32,
    pub hour: u32,
    pub minute: u32,
    pub second: u32,
}

pub open spec fn valid_timestamp(t: Timestamp) -> bool {
    &&& valid_date(Date { year: t.year, month: t.month, day: t.day })
    &&& t.hour < 24
    &&& t.minute < 60
    &&& t.second < 60
}

/// One partition's serialized filter and its window.
pub struct PartitionFilterData {
    pub filter_data: Vec<u8>,
    pub start_date: Date,
    pub end_date: Date,
}

/// Aggregate snapshot metadata.
#[derive(Clone, Copy, PartialEq, Eq, Structural, Debug)]
pub struct SnapshotMetadata {
    pub timestamp: Timestamp,
    pub total_items_count: u64,
    pub partition_count: u64,
}

/// The whole snapshot: named partition entries, the optional overflow entry,
/// and metadata.
pub struct DistributedFilterSnapshot {
    pub partition_filters: Vec<(String, PartitionFilterData)>,
    pub future_partition: Option<PartitionFilterData>,
    pub metadata: SnapshotMetadata,
}

#[verifier::ext_equal]
pub struct PartDataView {
    pub filter_data: Seq<u8>,
    pub start_date: Date,
    pub end_date: Date,
}

#[verifier::ext_equal]
pub struct SnapView {
    pub partitions: Seq<(Seq<char>, PartDataView)>,
    pub overflow: Option<PartDataView>,
    pub meta: SnapshotMetadata,
}

impl View for PartitionFilterData {
    type V = PartDataView;

    open spec fn view(&self) -> PartDataView {
        PartDataView {
            filter_data: self.filter_data@,
            start_date: self.start_date,
            end_date: self.end_date,
        }
    }
}

/// The view of a partition entry list.
pub open spec fn entries_view(s: Seq<(String, PartitionFilterData)>) -> Seq<
    (Seq<char>, PartDataView),
> {
    s.map(|i: int, e: (String, PartitionFilterData)| (e.0@, e.1@))
}

impl View for DistributedFilterSnapshot {
    type V = SnapView;

    open spec fn view(&self) -> SnapView {
        SnapView {
            partitions: entries_view(self.partition_filters@),
            overflow: match self.future_partition {
                Option::None => Option::None,
                Option::Some(p) => Option::Some(p@),
            },
            meta: self.metadata,
        }
    }
}

/// A structurally sound view: every window is valid and every count fits the
/// wire format. Encoding such a view and parsing it back is lossless.
pub open spec fn part_view_wf(p: PartDataView) -> bool {
    &&& valid_date(p.start_date)
    &&& valid_date(p.end_date)
    &&& date_lt(p.start_date, p.end_date)
    &&& p.filter_data.len() <= u64::MAX
}

pub open spec fn snap_view_wf(v: SnapView) -> bool {
    &&& v.partitions.len() <= u64::MAX
    &&& forall|i: int|
        0 <= i < v.partitions.len() ==> part_view_wf((#[trigger] v.partitions[i]).1)
            && encode_utf8(v.partitions[i].0).len() <= u64::MAX
    &&& v.overflow is Some ==> part_view_wf(v.overflow->0)
    &&& valid_timestamp(v.meta.timestamp)
}

// ----- encoding ------------------------------------------------------------

pub open spec fn enc_bytes(b: Seq<u8>) -> Seq<u8> {
    spec_u64_to_le_bytes(b.len() as u64) + b
}

pub open spec fn enc_date(d: Date) -> Seq<u8> {
    spec_u64_to_le_bytes(d.year as u64) + spec_u64_to_le_bytes(d.month as u64)
        + spec_u64_to_le_bytes(d.day as u64)
}

pub open spec fn enc_part_data(p: PartDataView) -> Seq<u8> {
    enc_date(p.start_date) + enc_date(p.end_date) + enc_bytes(p.filter_data)
}

pub open spec fn enc_entry(e: (Seq<char>, PartDataView)) -> Seq<u8> {
    enc_bytes(encode_utf8(e.0)) + enc_part_data(e.1)
}

pub open spec fn enc_entries(s: Seq<(Seq<char>, PartDataView)>) -> Seq<u8>
    decreases s.len(),
{
    if s.len() == 0 {
        Seq::empty()
    } else {
        enc_entry(s.first()) + enc_entries(s.drop_first())
    }
}

pub open spec fn enc_meta(m: SnapshotMetadata) -> Seq<u8> {
    spec_u64_to_le_bytes(m.timestamp.year as u64) + spec_u64_to_le_bytes(m.timestamp.month as u64)
        + spec_u64_to_le_bytes(m.timestamp.day as u64) + spec_u64_to_le_bytes(
        m.timestamp.hour as u64,
    ) + spec_u64_to_le_bytes(m.timestamp.minute as u64) + spec_u64_to_le_bytes(
        m.timestamp.second as u64,
    ) + spec_u64_to_le_bytes(m.total_items_count) + spec_u64_to_le_bytes(m.partition_count)
}

pub open spec fn enc_overflow(o: Option<PartDataView>) -> Seq<u8> {
    match o {
        Option::None => seq![0u8],
        Option::Some(p) => seq![1u8] + enc_part_data(p),
    }
}

pub open spec fn enc_snapshot(v: SnapView) -> Seq<u8> {
    spec_u64_to_le_bytes(v.partitions.len() as u64) + enc_entries(v.partitions) + enc_overflow(
        v.overflow,
    ) + enc_meta(v.meta)
}

// ----- parsing -------------------------------------------------------------

pub open spec fn parse_u64(b: Seq<u8>) -> Option<(u64, Seq<u8>)> {
    if b.len() >= 8 {
        Option::Some((spec_u64_from_le_bytes(b.take(8)), b.skip(8)))
    } else {
        Option::None
    }
}

pub open spec fn parse_bytes(b: Seq<u8>) -> Option<(Seq<u8>, Seq<u8>)> {
    match parse_u64(b) {
        Option::None => Option::None,
        Option::Some((n, rest)) => if rest.len() >= n {
            Option::Some((rest.take(n as int), rest.skip(n as int)))
        } else {
            Option::None
        },
    }
}

pub open spec fn parse_date(b: Seq<u8>) -> Option<(Date, Seq<u8>)> {
    match parse_u64(b) {
        Option::None => Option::None,
        Option::Some((y, r1)) => match parse_u64(r1) {
            Option::None => Option::None,
            Option::Some((m, r2)) => match parse_u64(r2) {
                Option::None => Option::None,
                Option::Some((d, r3)) => if y <= 9999 && m <= 12 && d <= 31 && valid_date(
                    Date { year: y as u32, month: m as u32, day: d as u32 },
                ) {
                    Option::Some((Date { year: y as u32, month: m as u32, day: d as u32 }, r3))
                } else {
                    Option::None
                },
            },
        },
    }
}

pub open spec fn parse_part_data(b: Seq<u8>) -> Option<(PartDataView, Seq<u8>)> {
    match parse_date(b) {
        Option::None => Option::None,
        Option::Some((start, r1)) => match parse_date(r1) {
            Option::None => Option::None,
            Option::Some((end, r2)) => if date_lt(start, end) {
                match parse_bytes(r2) {
                    Option::None => Option::None,
                    Option::Some((data, r3)) => Option::Some(
                        (PartDataView { filter_data: data, start_date: start, end_date: end }, r3),
                    ),
                }
            } else {
                Option::None
            },
        },
    }
}

pub open spec fn parse_str(b: Seq<u8>) -> Option<(Seq<char>, Seq<u8>)> {
    match parse_bytes(b) {
        Option::None => Option::None,
        Option::Some((bs, rest)) => if valid_utf8(bs) {
            Option::Some((decode_utf8(bs), rest))
        } else {
            Option::None
        },
    }
}

pub open spec fn parse_entry(b: Seq<u8>) -> Option<((Seq<char>, PartDataView), Seq<u8>)> {
    match parse_str(b) {
        Option::None => Option::None,
        Option::Some((name, r1)) => match parse_part_data(r1) {
            Option::None => Option::None,
            Option::Some((p, r2)) => Option::Some(((name, p), r2)),
        },
    }
}

pub open spec fn parse_entries(b: Seq<u8>, n: nat) -> Option<
    (Seq<(Seq<char>, PartDataView)>, Seq<u8>),
>
    decreases n,
{
    if n == 0 {
        Option::Some((Seq::empty(), b))
    } else {
        match parse_entry(b) {
            Option::None => Option::None,
            Option::Some((e, rest)) => match parse_entries(rest, (n - 1) as nat) {
                Option::None => Option::None,
                Option::Some((es, rest2)) => Option::Some((seq![e] + es, rest2)),
            },
        }
    }
}

pub open spec fn parse_meta(b: Seq<u8>) -> Option<(SnapshotMetadata, Seq<u8>)> {
    match parse_u64(b) {
        Option::None => Option::None,
        Option::Some((y, r1)) => match parse_u64(r1) {
            Option::None => Option::None,
            Option::Some((mo, r2)) => match parse_u64(r2) {
                Option::None => Option::None,
                Option::Some((d, r3)) => match parse_u64(r3) {
                    Option::None => Option::None,
                    Option::Some((h, r4)) => match parse_u64(r4) {
                        Option::None => Option::None,
                        Option::Some((mi, r5)) => match parse_u64(r5) {
                            Option::None => Option::None,
                            Option::Some((s, r6)) => match parse_u64(r6) {
                                Option::None => Option::None,
                                Option::Some((total, r7)) => match parse_u64(r7) {
                                    Option::None => Option::None,
                                    Option::Some((count, r8)) => {
                                        let ts = Timestamp {
                                            year: y as u32,
                                            month: mo as u32,
                                            day: d as u32,
                                            hour: h as u32,
                                            minute: mi as u32,
                                            second: s as u32,
                                        };
                                        if y <= 9999 && mo <= 12 && d <= 31 && h < 24 && mi < 60
                                            && s < 60 && valid_timestamp(ts) {
                                            Option::Some(
                                                (
                                                    SnapshotMetadata {
                                                        timestamp: ts,
                                                        total_items_count: total,
                                                        partition_count: count,
                                                    },
                                                    r8,
                                                ),
                                            )
                                        } else {
                                            Option::None
                                        }
                                    },
                                },
                            },
                        },
                    },
                },
            },
        },
    }
}

/// Reads one envelope from the front of `b`; trailing bytes are ignored.
pub open spec fn parse_snapshot(b: Seq<u8>) -> Option<SnapView> {
    match parse_u64(b) {
        Option::None => Option::None,
        Option::Some((n, r1)) => match parse_entries(r1, n as nat) {
            Option::None => Option::None,
            Option::Some((es, r2)) => {
                if r2.len() < 1 {
                    Option::None
                } else if r2[0] == 0u8 {
                    match parse_meta(r2.skip(1)) {
                        Option::None => Option::None,
                        Option::Some((meta, _r3)) => Option::Some(
                            SnapView { partitions: es, overflow: Option::None, meta },
                        ),
                    }
                } else if r2[0] == 1u8 {
                    match parse_part_data(r2.skip(1)) {
                        Option::None => Option::None,
                        Option::Some((p, r3)) => match parse_meta(r3) {
                            Option::None => Option::None,
                            Option::Some((meta, _r4)) => Option::Some(
                                SnapView { partitions: es, overflow: Option::Some(p), meta },
                            ),
                        },
                    }
                } else {
                    Option::None
                }
            },
        },
    }
}

// ----- the round trip ------------------------------------------------------

proof fn lemma_parse_u64_enc(x: u64, t: Seq<u8>)
    ensures
        parse_u64(spec_u64_to_le_bytes(x) + t) == Option::Some((x, t)),
{
    lemma_auto_spec_u64_to_from_le_bytes();
    let b = spec_u64_to_le_bytes(x) + t;
    assert(b.take(8) =~= spec_u64_to_le_bytes(x));
    assert(b.skip(8) =~= t);
}

proof fn lemma_parse_bytes_enc(d: Seq<u8>, t: Seq<u8>)
    requires
        d.len() <= u64::MAX,
    ensures
        parse_bytes(enc_bytes(d) + t) == Option::Some((d, t)),
{
    let n = d.len() as u64;
    assert(enc_bytes(d) + t =~= spec_u64_to_le_bytes(n) + (d + t));
    lemma_parse_u64_enc(n, d + t);
    assert((d + t).take(n as int) =~= d);
    assert((d + t).skip(n as int) =~= t);
}

proof fn lemma_parse_date_enc(d: Date, t: Seq<u8>)
    requires
        valid_date(d),
    ensures
        parse_date(enc_date(d) + t) == Option::Some((d, t)),
{
    let t1 = spec_u64_to_le_bytes(d.month as u64) + (spec_u64_to_le_bytes(d.day as u64) + t);
    assert(enc_date(d) + t =~= spec_u64_to_le_bytes(d.year as u64) + t1);
    lemma_parse_u64_enc(d.year as u64, t1);
    lemma_parse_u64_enc(d.month as u64, spec_u64_to_le_bytes(d.day as u64) + t);
    lemma_parse_u64_enc(d.day as u64, t);
}

proof fn lemma_parse_part_data_enc(p: PartDataView, t: Seq<u8>)
    requires
        part_view_wf(p),
    ensures
        parse_part_data(enc_part_data(p) + t) == Option::Some((p, t)),
{
    let t1 = enc_date(p.end_date) + (enc_bytes(p.filter_data) + t);
    assert(enc_part_data(p) + t =~= enc_date(p.start_date) + t1);
    lemma_parse_date_enc(p.start_date, t1);
    lemma_parse_date_enc(p.end_date, enc_bytes(p.filter_data) + t);
    lemma_parse_bytes_enc(p.filter_data, t);
    assert(parse_part_data(enc_part_data(p) + t) == Option::Some(
        (PartDataView { filter_data: p.filter_data, start_date: p.start_date, end_date: p.end_date }, t),
    ));
    assert(PartDataView {
        filter_data: p.filter_data,
        start_date: p.start_date,
        end_date: p.end_date,
    } =~= p);
}

proof fn lemma_parse_entry_enc(e: (Seq<char>, PartDataView), t: Seq<u8>)
    requires
        part_view_wf(e.1),
        encode_utf8(e.0).len() <= u64::MAX,
    ensures
        parse_entry(enc_entry(e) + t) == Option::Some((e, t)),
{
    let nb = encode_utf8(e.0);
    encode_utf8_valid_utf8(e.0);
    encode_utf8_decode_utf8(e.0);
    let t1 = enc_part_data(e.1) + t;
    assert(enc_entry(e) + t =~= enc_bytes(nb) + t1);
    lemma_parse_bytes_enc(nb, t1);
    lemma_parse_part_data_enc(e.1, t);
    assert(parse_entry(enc_entry(e) + t) == Option::Some(((e.0, e.1), t)));
    assert((e.0, e.1) == e);
}

proof fn lemma_parse_entries_enc(s: Seq<(Seq<char>, PartDataView)>, t: Seq<u8>)
    requires
        forall|i: int|
            0 <= i < s.len() ==> part_view_wf((#[trigger] s[i]).1) && encode_utf8(s[i].0).len()
                <= u64::MAX,
    ensures
        parse_entries(enc_entries(s) + t, s.len() as nat) == Option::Some((s, t)),
    decreases s.len(),
{
    if s.len() == 0 {
        assert(enc_entries(s) + t =~= t);
        assert(s =~= Seq::<(Seq<char>, PartDataView)>::empty());
    } else {
        let e = s.first();
        let rest = s.drop_first();
        let t1 = enc_entries(rest) + t;
        assert(enc_entries(s) + t =~= enc_entry(e) + t1);
        lemma_parse_entry_enc(e, t1);
        lemma_parse_entries_enc(rest, t);
        assert(seq![e] + rest =~= s);
    }
}

#[verifier::rlimit(60)]
proof fn lemma_parse_meta_enc(m: SnapshotMetadata, t: Seq<u8>)
    requires
        valid_timestamp(m.timestamp),
    ensures
        parse_meta(enc_meta(m) + t) == Option::Some((m, t)),
{
    let ts = m.timestamp;
    let p8 = spec_u64_to_le_bytes(m.partition_count);
    let p7 = spec_u64_to_le_bytes(m.total_items_count) + (p8 + t);
    let p6 = spec_u64_to_le_bytes(ts.second as u64) + p7;
    let p5 = spec_u64_to_le_bytes(ts.minute as u64) + p6;
    let p4 = spec_u64_to_le_bytes(ts.hour as u64) + p5;
    let p3 = spec_u64_to_le_bytes(ts.day as u64) + p4;
    let p2 = spec_u64_to_le_bytes(ts.month as u64) + p3;
    assert(enc_meta(m) + t =~= spec_u64_to_le_bytes(ts.year as u64) + p2);
    lemma_parse_u64_enc(ts.year as u64, p2);
    lemma_parse_u64_enc(ts.month as u64, p3);
    lemma_parse_u64_enc(ts.day as u64, p4);
    lemma_parse_u64_enc(ts.hour as u64, p5);
    lemma_parse_u64_enc(ts.minute as u64, p6);
    lemma_parse_u64_enc(ts.second as u64, p7);
    lemma_parse_u64_enc(m.total_items_count, p8 + t);
    lemma_parse_u64_enc(m.partition_count, t);
}

// ----- the executable encoder ---------------------------------------------

proof fn lemma_enc_entries_push(s: Seq<(Seq<char>, PartDataView)>, e: (Seq<char>, PartDataView))
    ensures
        enc_entries(s.push(e)) == enc_entries(s) + enc_entry(e),
    decreases s.len(),
{
    if s.len() == 0 {
        assert(s.push(e).drop_first() =~= Seq::<(Seq<char>, PartDataView)>::empty());
        assert(s.push(e).first() == e);
        assert(enc_entries(s.push(e)) == enc_entry(e) + enc_entries(s.push(e).drop_first()));
        assert(enc_entries(s.push(e).drop_first()) == Seq::<u8>::empty());
        assert(enc_entries(s) == Seq::<u8>::empty());
        assert(enc_entry(e) + Seq::<u8>::empty() =~= Seq::<u8>::empty() + enc_entry(e));
    } else {
        assert(s.push(e).drop_first() =~= s.drop_first().push(e));
        assert(s.push(e).first() == s.first());
        lemma_enc_entries_push(s.drop_first(), e);
        assert(enc_entries(s.push(e)) == enc_entry(s.first()) + enc_entries(
            s.drop_first().push(e),
        ));
        assert(enc_entries(s.push(e)) == enc_entry(s.first()) + (enc_entries(s.drop_first())
            + enc_entry(e)));
        assert(enc_entry(s.first()) + (enc_entries(s.drop_first()) + enc_entry(e)) =~= (enc_entry(
            s.first(),
        ) + enc_entries(s.drop_first())) + enc_entry(e));
        assert(enc_entries(s) == enc_entry(s.first()) + enc_entries(s.drop_first()));
    }
}

fn encode_u64_into(out: &mut Vec<u8>, x: u64)
    ensures
        final(out)@ == old(out)@ + spec_u64_to_le_bytes(x),
{
    let mut b = u64_to_le_bytes(x);
    out.append(&mut b);
}

fn encode_bytes_into(out: &mut Vec<u8>, data: &Vec<u8>)
    ensures
        final(out)@ == old(out)@ + enc_bytes(data@),
        data@.len() <= usize::MAX,
{
    encode_u64_into(out, data.len() as u64);
    out.extend_from_slice(data.as_slice());
    proof {
        assert(out@ =~= old(out)@ + enc_bytes(data@));
    }
}

fn encode_date_into(out: &mut Vec<u8>, d: &Date)
    ensures
        final(out)@ == old(out)@ + enc_date(*d),
{
    encode_u64_into(out, d.year as u64);
    encode_u64_into(out, d.month as u64);
    encode_u64_into(out, d.day as u64);
    proof {
        assert(out@ =~= old(out)@ + enc_date(*d));
    }
}

fn encode_part_data_into(out: &mut Vec<u8>, p: &PartitionFilterData)
    ensures
        final(out)@ == old(out)@ + enc_part_data(p@),
        p.filter_data@.len() <= usize::MAX,
{
    encode_date_into(out, &p.start_date);
    encode_date_into(out, &p.end_date);
    encode_bytes_into(out, &p.filter_data);
    proof {
        assert(out@ =~= old(out)@ + enc_part_data(p@));
    }
}

fn encode_entry_into(out: &mut Vec<u8>, name: &String, p: &PartitionFilterData)
    ensures
        final(out)@ == old(out)@ + enc_entry((name@, p@)),
        encode_utf8(name@).len() <= usize::MAX,
        p.filter_data@.len() <= usize::MAX,
{
    let nb = name.as_str().as_bytes_vec();
    encode_bytes_into(out, &nb);
    encode_part_data_into(out, p);
    proof {
        assert(out@ =~= old(out)@ + enc_entry((name@, p@)));
    }
}

fn encode_meta_into(out: &mut Vec<u8>, m: &SnapshotMetadata)
    ensures
        final(out)@ == old(out)@ + enc_meta(*m),
{
    encode_u64_into(out, m.timestamp.year as u64);
    encode_u64_into(out, m.timestamp.month as u64);
    encode_u64_into(out, m.timestamp.day as u64);
    encode_u64_into(out, m.timestamp.hour as u64);
    encode_u64_into(out, m.timestamp.minute as u64);
    encode_u64_into(out, m.timestamp.second as u64);
    encode_u64_into(out, m.total_items_count);
    encode_u64_into(out, m.partition_count);
    proof {
        assert(out@ =~= old(out)@ + enc_meta(*m));
    }
}

/// Serializes the snapshot into its binary envelope.
pub fn encode_snapshot(s: &DistributedFilterSnapshot) -> (r: Vec<u8>)
    ensures
        r@ == enc_snapshot(s@),
        forall|i: int|
            0 <= i < s@.partitions.len() ==> encode_utf8((#[trigger] s@.partitions[i]).0).len()
                <= usize::MAX && s@.partitions[i].1.filter_data.len() <= usize::MAX,
        s@.overflow is Some ==> s@.overflow->0.filter_data.len() <= usize::MAX,
{
    let mut out: Vec<u8> = Vec::new();
    let n = s.partition_filters.len();
    encode_u64_into(&mut out, n as u64);
    let ghost header = spec_u64_to_le_bytes(s@.partitions.len() as u64);
    let mut i: usize = 0;
    while i < n
        invariant
            n == s.partition_filters@.len(),
            0 <= i <= n,
            header == spec_u64_to_le_bytes(s@.partitions.len() as u64),
            s@.partitions == entries_view(s.partition_filters@),
            s@.partitions.len() == n,
            out@ == header + enc_entries(s@.partitions.take(i as int)),
            forall|j: int|
                0 <= j < i ==> encode_utf8((#[trigger] s@.partitions[j]).0).len() <= usize::MAX
                    && s@.partitions[j].1.filter_data.len() <= usize::MAX,
        decreases n - i,
    {
        let e = &s.partition_filters[i];
        encode_entry_into(&mut out, &e.0, &e.1);
        proof {
            let prefix = s@.partitions.take(i as int);
            let ev = s@.partitions[i as int];
            assert(ev == (e.0@, e.1@));
            lemma_enc_entries_push(prefix, ev);
            assert(s@.partitions.take(i as int + 1) =~= prefix.push(ev));
        }
        i += 1;
    }
    proof {
        assert(s@.partitions.take(n as int) =~= s@.partitions);
    }
    match &s.future_partition {
        Option::None => {
            out.push(0u8);
        },
        Option::Some(p) => {
            out.push(1u8);
            encode_part_data_into(&mut out, p);
        },
    }
    proof {
        assert(out@ =~= header + enc_entries(s@.partitions) + enc_overflow(s@.overflow));
    }
    encode_meta_into(&mut out, &s.metadata);
    proof {
        assert(out@ =~= enc_snapshot(s@));
    }
    out
}

// ----- the executable decoder ---------------------------------------------

/// Relies on std's `String::from_utf8`: it succeeds exactly on valid UTF-8
/// input and returns the string holding exactly those bytes.
#[verifier::external_body]
fn string_from_utf8(b: Vec<u8>) -> (r: Option<String>)
    ensures
        r is Some ==> encode_utf8(r->0@) == b@,
        valid_utf8(b@) ==> r is Some,
{
    String::from_utf8(b).ok()
}

fn read_u64(b: &Vec<u8>, pos: usize) -> (r: Option<(u64, usize)>)
    requires
        pos <= b@.len(),
    ensures
        match r {
            Option::Some(xp) => {
                &&& parse_u64(b@.skip(pos as int)) == Option::Some((xp.0, b@.skip(xp.1 as int)))
                &&& pos <= xp.1 <= b@.len()
            },
            Option::None => parse_u64(b@.skip(pos as int)) is None,
        },
{
    if b.len() - pos >= 8 {
        let s = slice_subrange(b.as_slice(), pos, pos + 8);
        let x = u64_from_le_bytes(s);
        proof {
            assert(b@.skip(pos as int).take(8) =~= b@.subrange(pos as int, pos as int + 8));
            assert(b@.skip(pos as int).skip(8) =~= b@.skip(pos as int + 8));
        }
        Option::Some((x, pos + 8))
    } else {
        Option::None
    }
}

fn read_bytes(b: &Vec<u8>, pos: usize) -> (r: Option<(Vec<u8>, usize)>)
    requires
        pos <= b@.len(),
    ensures
        match r {
            Option::Some(xp) => {
                &&& parse_bytes(b@.skip(pos as int)) == Option::Some((xp.0@, b@.skip(xp.1 as int)))
                &&& pos <= xp.1 <= b@.len()
            },
            Option::None => parse_bytes(b@.skip(pos as int)) is None,
        },
{
    match read_u64(b, pos) {
        Option::None => Option::None,
        Option::Some((n, p1)) => {
            if n <= (b.len() - p1) as u64 {
                let len = n as usize;
                let s = slice_subrange(b.as_slice(), p1, p1 + len);
                let v = slice_to_vec(s);
                proof {
                    let rest = b@.skip(p1 as int);
                    assert(rest.take(n as int) =~= b@.subrange(p1 as int, p1 as int + n));
                    assert(rest.skip(n as int) =~= b@.skip(p1 as int + n));
                }
                Option::Some((v, p1 + len))
            } else {
                Option::None
            }
        },
    }
}

fn read_date(b: &Vec<u8>, pos: usize) -> (r: Option<(Date, usize)>)
    requires
        pos <= b@.len(),
    ensures
        match r {
            Option::Some(xp) => {
                &&& parse_date(b@.skip(pos as int)) == Option::Some((xp.0, b@.skip(xp.1 as int)))
                &&& pos <= xp.1 <= b@.len()
            },
            Option::None => parse_date(b@.skip(pos as int)) is None,
        },
{
    let (y, p1) = match read_u64(b, pos) {
        Option::None => {
            return Option::None;
        },
        Option::Some(t) => t,
    };
    let (m, p2) = match read_u64(b, p1) {
        Option::None => {
            return Option::None;
        },
        Option::Some(t) => t,
    };
    let (d, p3) = match read_u64(b, p2) {
        Option::None => {
            return Option::None;
        },
        Option::Some(t) => t,
    };
    if y <= 9999 && m <= 12 && d <= 31 {
        match Date::new(y as u32, m as u32, d as u32) {
            Option::Some(date) => Option::Some((date, p3)),
            Option::None => Option::None,
        }
    } else {
        Option::None
    }
}

fn read_part_data(b: &Vec<u8>, pos: usize) -> (r: Option<(PartitionFilterData, usize)>)
    requires
        pos <= b@.len(),
    ensures
        match r {
            Option::Some(xp) => {
                &&& parse_part_data(b@.skip(pos as int)) == Option::Some(
                    (xp.0@, b@.skip(xp.1 as int)),
                )
                &&& pos <= xp.1 <= b@.len()
            },
            Option::None => parse_part_data(b@.skip(pos as int)) is None,
        },
{
    let (start, p1) = match read_date(b, pos) {
        Option::None => {
            return Option::None;
        },
        Option::Some(t) => t,
    };
    let (end, p2) = match read_date(b, p1) {
        Option::None => {
            return Option::None;
        },
        Option::Some(t) => t,
    };
    if !start.lt(&end) {
        return Option::None;
    }
    let (data, p3) = match read_bytes(b, p2) {
        Option::None => {
            return Option::None;
        },
        Option::Some(t) => t,
    };
    Option::Some((PartitionFilterData { filter_data: data, start_date: start, end_date: end }, p3))
}

fn read_str(b: &Vec<u8>, pos: usize) -> (r: Option<(String, usize)>)
    requires
        pos <= b@.len(),
    ensures
        match r {
            Option::Some(xp) => {
                &&& parse_str(b@.skip(pos as int)) == Option::Some((xp.0@, b@.skip(xp.1 as int)))
                &&& pos <= xp.1 <= b@.len()
            },
            Option::None => parse_str(b@.skip(pos as int)) is None,
        },
{
    match read_bytes(b, pos) {
        Option::None => Option::None,
        Option::Some((bs, p1)) => {
            let ghost bsv = bs@;
            match string_from_utf8(bs) {
                Option::Some(s) => {
                    proof {
                        encode_utf8_valid_utf8(s@);
                        encode_utf8_decode_utf8(s@);
                        assert(valid_utf8(bsv));
                        assert(decode_utf8(bsv) == s@);
                    }
                    Option::Some((s, p1))
                },
                Option::None => {
                    proof {
                        assert(!valid_utf8(bsv));
                    }
                    Option::None
                },
            }
        },
    }
}

fn read_entry(b: &Vec<u8>, pos: usize) -> (r: Option<((String, PartitionFilterData), usize)>)
    requires
        pos <= b@.len(),
    ensures
        match r {
            Option::Some((e, np)) => {
                &&& parse_entry(b@.skip(pos as int)) == Option::Some(
                    ((e.0@, e.1@), b@.skip(np as int)),
                )
                &&& pos <= np <= b@.len()
            },
            Option::None => parse_entry(b@.skip(pos as int)) is None,
        },
{
    let (name, p1) = match read_str(b, pos) {
        Option::None => {
            return Option::None;
        },
        Option::Some(t) => t,
    };
    let (pd, p2) = match read_part_data(b, p1) {
        Option::None => {
            return Option::None;
        },
        Option::Some(t) => t,
    };
    Option::Some(((name, pd), p2))
}

#[verifier::rlimit(60)]
fn read_meta(b: &Vec<u8>, pos: usize) -> (r: Option<(SnapshotMetadata, usize)>)
    requires
        pos <= b@.len(),
    ensures
        match r {
            Option::Some(xp) => {
                &&& parse_meta(b@.skip(pos as int)) == Option::Some((xp.0, b@.skip(xp.1 as int)))
                &&& pos <= xp.1 <= b@.len()
            },
            Option::None => parse_meta(b@.skip(pos as int)) is None,
        },
{
    let (y, p1) = match read_u64(b, pos) {
        Option::None => {
            return Option::None;
        },
        Option::Some(t) => t,
    };
    let (mo, p2) = match read_u64(b, p1) {
        Option::None => {
            return Option::None;
        },
        Option::Some(t) => t,
    };
    let (d, p3) = match read_u64(b, p2) {
        Option::None => {
            return Option::None;
        },
        Option::Some(t) => t,
    };
    let (h, p4) = match read_u64(b, p3) {
        Option::None => {
            return Option::None;
        },
        Option::Some(t) => t,
    };
    let (mi, p5) = match read_u64(b, p4) {
        Option::None => {
            return Option::None;
        },
        Option::Some(t) => t,
    };
    let (s, p6) = match read_u64(b, p5) {
        Option::None => {
            return Option::None;
        },
        Option::Some(t) => t,
    };
    let (total, p7) = match read_u64(b, p6) {
        Option::None => {
            return Option::None;
        },
        Option::Some(t) => t,
    };
    let (count, p8) = match read_u64(b, p7) {
        Option::None => {
            return Option::None;
        },
        Option::Some(t) => t,
    };
    if y <= 9999 && mo <= 12 && d <= 31 && h < 24 && mi < 60 && s < 60 {
        let date_ok = match Date::new(y as u32, mo as u32, d as u32) {
            Option::Some(_) => true,
            Option::None => false,
        };
        if date_ok {
            let ts = Timestamp {
                year: y as u32,
                month: mo as u32,
                day: d as u32,
                hour: h as u32,
                minute: mi as u32,
                second: s as u32,
            };
            return Option::Some(
                (
                    SnapshotMetadata {
                        timestamp: ts,
                        total_items_count: total,
                        partition_count: count,
                    },
                    p8,
                ),
            );
        }
        return Option::None;
    }
    Option::None
}

/// Reads one snapshot envelope from the front of `bytes`; trailing bytes are
/// ignored, while any structural violation is rejected as
/// [`SnapshotError::Malformed`].
pub fn decode_snapshot(bytes: &Vec<u8>) -> (r: Result<DistributedFilterSnapshot, SnapshotError>)
    ensures
        r is Ok <==> parse_snapshot(bytes@) is Some,
        r is Ok ==> parse_snapshot(bytes@) == Option::Some(r->Ok_0@),
        r is Err ==> r->Err_0 is Malformed,
{
    proof {
        assert(bytes@.skip(0) =~= bytes@);
    }
    let (n, p1) = match read_u64(bytes, 0) {
        Option::None => {
            return Err(SnapshotError::Malformed);
        },
        Option::Some(t) => t,
    };
    let mut entries: Vec<(String, PartitionFilterData)> = Vec::new();
    let mut pos: usize = p1;
    let mut i: u64 = 0;
    while i < n
        invariant
            pos <= bytes@.len(),
            0 <= i <= n,
            parse_u64(bytes@) == Option::Some((n, bytes@.skip(p1 as int))),
            match parse_entries(bytes@.skip(pos as int), (n - i) as nat) {
                Option::None => parse_entries(bytes@.skip(p1 as int), n as nat) is None,
                Option::Some(er) => parse_entries(bytes@.skip(p1 as int), n as nat)
                    == Option::Some((entries_view(entries@) + er.0, er.1)),
            },
        decreases n - i,
    {
        let ghost oldpos = pos;
        let ghost oldviews = entries_view(entries@);
        let (e, np) = match read_entry(bytes, pos) {
            Option::None => {
                proof {
                    assert(parse_entries(bytes@.skip(pos as int), (n - i) as nat) is None);
                }
                return Err(SnapshotError::Malformed);
            },
            Option::Some(t) => t,
        };
        proof {
            let ev = (e.0@, e.1@);
            let inner = parse_entries(bytes@.skip(np as int), (n - i - 1) as nat);
            assert(parse_entries(bytes@.skip(oldpos as int), (n - i) as nat) == (match inner {
                Option::None => Option::None,
                Option::Some((es, rest2)) => Option::Some((seq![ev] + es, rest2)),
            }));
            assert(entries_view(entries@.push(e)) =~= oldviews.push(ev));
            if inner is Some {
                let (es2, rest2) = inner->0;
                assert(oldviews + (seq![ev] + es2) =~= oldviews.push(ev) + es2);
            }
        }
        entries.push(e);
        pos = np;
        i = i + 1;
    }
    proof {
        assert(parse_entries(bytes@.skip(pos as int), 0) == Option::Some(
            (Seq::<(Seq<char>, PartDataView)>::empty(), bytes@.skip(pos as int)),
        ));
        assert(entries_view(entries@) + Seq::<(Seq<char>, PartDataView)>::empty() =~= entries_view(
            entries@,
        ));
        assert(parse_entries(bytes@.skip(p1 as int), n as nat) == Option::Some(
            (entries_view(entries@), bytes@.skip(pos as int)),
        ));
    }
    if pos >= bytes.len() {
        return Err(SnapshotError::Malformed);
    }
    let flag = bytes[pos];
    proof {
        assert(bytes@.skip(pos as int)[0] == bytes@[pos as int]);
        assert(bytes@.skip(pos as int).skip(1) =~= bytes@.skip(pos as int + 1));
    }
    let future_partition: Option<PartitionFilterData>;
    if flag == 0 {
        future_partition = Option::None;
        pos = pos + 1;
    } else if flag == 1 {
        let (pd, np) = match read_part_data(bytes, pos + 1) {
            Option::None => {
                return Err(SnapshotError::Malformed);
            },
            Option::Some(t) => t,
        };
        future_partition = Option::Some(pd);
        pos = np;
    } else {
        return Err(SnapshotError::Malformed);
    }
    let (meta, _endpos) = match read_meta(bytes, pos) {
        Option::None => {
            return Err(SnapshotError::Malformed);
        },
        Option::Some(t) => t,
    };
    let result = DistributedFilterSnapshot {
        partition_filters: entries,
        future_partition,
        metadata: meta,
    };
    proof {
        assert(parse_snapshot(bytes@) == Option::Some(result@)) by {
            assert(result@ =~= parse_snapshot(bytes@)->0);
        }
    }
    Ok(result)
}

/// Decoding inverts encoding: parsing the encoding of any structurally sound
/// snapshot view, with arbitrary trailing bytes, yields exactly that view.
pub proof fn lemma_parse_enc_snapshot(v: SnapView, t: Seq<u8>)
    requires
        snap_view_wf(v),
    ensures
        parse_snapshot(enc_snapshot(v) + t) == Option::Some(v),
{
    let n = v.partitions.len() as u64;
    let t1 = enc_entries(v.partitions) + (enc_overflow(v.overflow) + (enc_meta(v.meta) + t));
    assert(enc_snapshot(v) + t =~= spec_u64_to_le_bytes(n) + t1);
    lemma_parse_u64_enc(n, t1);
    lemma_parse_entries_enc(v.partitions, enc_overflow(v.overflow) + (enc_meta(v.meta) + t));
    let r2 = enc_overflow(v.overflow) + (enc_meta(v.meta) + t);
    match v.overflow {
        Option::None => {
            assert(r2[0] == 0u8);
            assert(r2.skip(1) =~= enc_meta(v.meta) + t);
            lemma_parse_meta_enc(v.meta, t);
            assert(parse_snapshot(enc_snapshot(v) + t) == Option::Some(
                SnapView { partitions: v.partitions, overflow: Option::None, meta: v.meta },
            ));
            assert(SnapView {
                partitions: v.partitions,
                overflow: Option::None,
                meta: v.meta,
            } =~= v);
        },
        Option::Some(p) => {
            assert(r2[0] == 1u8);
            assert(r2.skip(1) =~= enc_part_data(p) + (enc_meta(v.meta) + t));
            lemma_parse_part_data_enc(p, enc_meta(v.meta) + t);
            lemma_parse_meta_enc(v.meta, t);
            assert(parse_snapshot(enc_snapshot(v) + t) == Option::Some(
                SnapView { partitions: v.partitions, overflow: Option::Some(p), meta: v.meta },
            ));
            assert(SnapView {
                partitions: v.partitions,
                overflow: Option::Some(p),
                meta: v.meta,
            } =~= v);
        },
    }
}

} // verus!
