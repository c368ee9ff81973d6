//! Snapshot persistence: building a snapshot from a live structure,
//! serializing it, choosing the newest stored object, and rebuilding a
//! structure from a payload. The blob store itself (list/get/put) is an
//! external collaborator; everything here exchanges plain values with it.

use vstd::prelude::*;
use vstd::utf8::encode_utf8;
use crate::date::{Date, valid_date, date_lt};
use crate::distributed_filter::{DistributedFilter, PartitionFilter};
use crate::errors::SnapshotError;
use crate::membership::{
    filter_hits, filter_bytes, filter_count, filter_headroom, filter_to_bytes, filter_from_bytes,
    filter_len,
};
use crate::naming::{digit_char, lemma_digit_char_injective};
use crate::snapshot::{
    DistributedFilterSnapshot, PartitionFilterData, SnapshotMetadata, Timestamp, SnapView,
    valid_timestamp, snap_view_wf, parse_snapshot, encode_snapshot, decode_snapshot,
    lemma_parse_enc_snapshot,
};

verus! {

/// Addition that pegs at the counter's ceiling instead of wrapping.
pub open spec fn sat_add(a: u64, b: u64) -> u64 {
    if a + b > u64::MAX {
        u64::MAX
    } else {
        (a + b) as u64
    }
}

/// The item count summed over the dated partitions, pegged at the counter's
/// ceiling.
pub open spec fn spec_total_items(s: Seq<(String, PartitionFilter)>) -> u64
    decreases s.len(),
{
    if s.len() == 0 {
        0u64
    } else {
        sat_add(spec_total_items(s.drop_last()), filter_count(s.last().1.filter))
    }
}

/// The item count over the whole structure, overflow partition included.
pub open spec fn spec_total_items_with_overflow(df: DistributedFilter) -> u64 {
    match df.future_partition {
        Option::None => spec_total_items(df.filters@),
        Option::Some(fp) => sat_add(spec_total_items(df.filters@), filter_count(fp.filter)),
    }
}

/// The snapshot view `v` captures the structure `df` exactly: entry by entry
/// the same names and windows, each filter stored as its serialized bytes,
/// and metadata stamped with `ts`.
pub open spec fn view_represents(v: SnapView, df: DistributedFilter, ts: Timestamp) -> bool {
    &&& v.partitions.len() == df.filters@.len()
    &&& forall|i: int|
        0 <= i < df.filters@.len() ==> {
            let e = #[trigger] v.partitions[i];
            &&& e.0 == df.filters@[i].0@
            &&& e.1.filter_data == filter_bytes(df.filters@[i].1.filter)
            &&& e.1.start_date == df.filters@[i].1.start_date
            &&& e.1.end_date == df.filters@[i].1.end_date
        }
    &&& (v.overflow is Some <==> df.future_partition is Some)
    &&& v.overflow is Some ==> {
        &&& v.overflow->0.filter_data == filter_bytes(df.future_partition->0.filter)
        &&& v.overflow->0.start_date == df.future_partition->0.start_date
        &&& v.overflow->0.end_date == df.future_partition->0.end_date
    }
    &&& v.meta.timestamp == ts
    &&& v.meta.partition_count == df.filters@.len()
    &&& v.meta.total_items_count == spec_total_items_with_overflow(df)
}

/// The structure `df` was rebuilt from the snapshot view `v`: same names and
/// windows in the same order, and whenever a stored blob is the serialized
/// form of some filter, the rebuilt filter reports exactly that filter's
/// keys.
pub open spec fn restored_matches(df: DistributedFilter, v: SnapView) -> bool {
    &&& df.wf()
    &&& df.filters@.len() == v.partitions.len()
    &&& forall|i: int|
        0 <= i < v.partitions.len() ==> {
            let e = #[trigger] v.partitions[i];
            &&& df.filters@[i].0@ == e.0
            &&& df.filters@[i].1.start_date == e.1.start_date
            &&& df.filters@[i].1.end_date == e.1.end_date
            &&& forall|g: qfilter::Filter|
                e.1.filter_data == #[trigger] filter_bytes(g) ==> filter_hits(
                    df.filters@[i].1.filter,
                ) == filter_hits(g) && filter_count(df.filters@[i].1.filter) == filter_count(g)
                    && filter_headroom(df.filters@[i].1.filter) == filter_headroom(g)
        }
    &&& (df.future_partition is Some <==> v.overflow is Some)
    &&& v.overflow is Some ==> {
        &&& df.future_partition->0.start_date == v.overflow->0.start_date
        &&& df.future_partition->0.end_date == v.overflow->0.end_date
        &&& forall|g: qfilter::Filter|
            v.overflow->0.filter_data == #[trigger] filter_bytes(g) ==> filter_hits(
                df.future_partition->0.filter,
            ) == filter_hits(g) && filter_count(df.future_partition->0.filter) == filter_count(g)
                && filter_headroom(df.future_partition->0.filter) == filter_headroom(g)
    }
}

/// A snapshot view that restoration is guaranteed to accept: distinct
/// partition names, valid windows, and every stored blob the serialized form
/// of some filter. Every snapshot saved from a well-formed structure is of
/// this kind.
pub open spec fn restorable(v: SnapView) -> bool {
    &&& forall|a: int, b: int|
        0 <= a < b < v.partitions.len() ==> (#[trigger] v.partitions[a]).0 != (
        #[trigger] v.partitions[b]).0
    &&& forall|i: int|
        0 <= i < v.partitions.len() ==> {
            let e = #[trigger] v.partitions[i];
            &&& valid_date(e.1.start_date)
            &&& valid_date(e.1.end_date)
            &&& date_lt(e.1.start_date, e.1.end_date)
            &&& exists|g: qfilter::Filter| e.1.filter_data == #[trigger] filter_bytes(g)
        }
    &&& v.overflow is Some ==> {
        &&& valid_date(v.overflow->0.start_date)
        &&& valid_date(v.overflow->0.end_date)
        &&& date_lt(v.overflow->0.start_date, v.overflow->0.end_date)
        &&& exists|g: qfilter::Filter| v.overflow->0.filter_data == #[trigger] filter_bytes(g)
    }
}

/// Serializes every partition's filter and gathers metadata; the lock holder
/// does this in memory, the upload happens outside. Taking a snapshot cannot
/// fail.
pub fn snapshot_of(df: &DistributedFilter, ts: Timestamp) -> (r: DistributedFilterSnapshot)
    requires
        df.wf(),
        valid_timestamp(ts),
    ensures
        view_represents(r@, *df, ts),
        r@.partitions.len() <= u64::MAX,
{
    let n = df.filters.len();
    let mut parts: Vec<(String, PartitionFilterData)> = Vec::new();
    let mut total: u64 = 0;
    let mut i: usize = 0;
    while i < n
        invariant
            df.wf(),
            n == df.filters@.len(),
            0 <= i <= n,
            parts@.len() == i,
            total == spec_total_items(df.filters@.take(i as int)),
            forall|j: int|
                0 <= j < i ==> {
                    let e = #[trigger] parts@[j];
                    &&& e.0@ == df.filters@[j].0@
                    &&& e.1.filter_data@ == filter_bytes(df.filters@[j].1.filter)
                    &&& e.1.start_date == df.filters@[j].1.start_date
                    &&& e.1.end_date == df.filters@[j].1.end_date
                },
        decreases n - i,
    {
        let entry = &df.filters[i];
        let name = entry.0.clone();
        let data = filter_to_bytes(&entry.1.filter);
        let count = filter_len(&entry.1.filter);
        total = if total > u64::MAX - count {
            u64::MAX
        } else {
            total + count
        };
        proof {
            assert(df.filters@.take(i as int + 1).drop_last() =~= df.filters@.take(i as int));
            assert(df.filters@.take(i as int + 1).last() == df.filters@[i as int]);
            assert(total == sat_add(
                spec_total_items(df.filters@.take(i as int)),
                filter_count(df.filters@[i as int].1.filter),
            ));
        }
        parts.push(
            (
                name,
                PartitionFilterData {
                    filter_data: data,
                    start_date: entry.1.start_date,
                    end_date: entry.1.end_date,
                },
            ),
        );
        i += 1;
    }
    proof {
        assert(df.filters@.take(n as int) =~= df.filters@);
    }
    let future_partition = match &df.future_partition {
        Option::None => Option::None,
        Option::Some(fp) => {
            let data = filter_to_bytes(&fp.filter);
            let count = filter_len(&fp.filter);
            total = if total > u64::MAX - count {
                u64::MAX
            } else {
                total + count
            };
            Option::Some(
                PartitionFilterData {
                    filter_data: data,
                    start_date: fp.start_date,
                    end_date: fp.end_date,
                },
            )
        },
    };
    let metadata = SnapshotMetadata {
        timestamp: ts,
        total_items_count: total,
        partition_count: n as u64,
    };
    DistributedFilterSnapshot { partition_filters: parts, future_partition, metadata }
}

/// Builds the snapshot and serializes it in one step; saving cannot fail.
/// The returned payload parses back to a restorable view that captures `df`
/// exactly, which is the saved half of the snapshot round trip.
pub fn save_snapshot_bytes(df: &DistributedFilter, ts: Timestamp) -> (r: Vec<u8>)
    requires
        df.wf(),
        valid_timestamp(ts),
    ensures
        ({
            let p = parse_snapshot(r@);
            &&& p is Some
            &&& view_represents(p->0, *df, ts)
            &&& restorable(p->0)
        }),
{
    let snap = snapshot_of(df, ts);
    let bytes = encode_snapshot(&snap);
    proof {
        assert forall|i: int|
            0 <= i < snap@.partitions.len() implies crate::snapshot::part_view_wf(
            (#[trigger] snap@.partitions[i]).1,
        ) && encode_utf8(snap@.partitions[i].0).len() <= u64::MAX by {
            assert(df.filters@[i].1.wf());
        }
        if snap@.overflow is Some {
            assert(df.future_partition->0.wf());
        }
        assert(snap_view_wf(snap@));
        lemma_parse_enc_snapshot(snap@, Seq::<u8>::empty());
        assert(bytes@ + Seq::<u8>::empty() =~= bytes@);
        let v = snap@;
        assert forall|a: int, b: int|
            0 <= a < b < v.partitions.len() implies (#[trigger] v.partitions[a]).0 != (
        #[trigger] v.partitions[b]).0 by {
            assert(v.partitions[a].0 == df.filters@[a].0@);
            assert(v.partitions[b].0 == df.filters@[b].0@);
            assert(df.filters@[a].0@ != df.filters@[b].0@);
        }
        assert forall|i: int|
            0 <= i < v.partitions.len() implies exists|g: qfilter::Filter|
            (#[trigger] v.partitions[i]).1.filter_data == #[trigger] filter_bytes(g) by {
            assert(v.partitions[i].1.filter_data == filter_bytes(df.filters@[i].1.filter));
        }
        if v.overflow is Some {
            assert(v.overflow->0.filter_data == filter_bytes(df.future_partition->0.filter));
        }
        assert(restorable(v));
    }
    bytes
}

/// Rebuilds a live structure from a decoded snapshot. Fails loudly when two
/// entries share a name or a window is invalid (a structurally broken
/// snapshot) or when a filter blob does not decode; it never yields a
/// partially restored structure.
pub fn restore_from_snapshot(snap: &DistributedFilterSnapshot) -> (r: Result<
    DistributedFilter,
    SnapshotError,
>)
    ensures
        r is Ok ==> restored_matches(r->Ok_0, snap@),
        restorable(snap@) ==> r is Ok,
{
    let n = snap.partition_filters.len();
    let mut df = DistributedFilter { filters: Vec::new(), future_partition: Option::None };
    let mut i: usize = 0;
    while i < n
        invariant
            n == snap.partition_filters@.len(),
            0 <= i <= n,
            df.future_partition is None,
            df.filters@.len() == i,
            forall|a: int, b: int|
                0 <= a < b < df.filters@.len() ==> (#[trigger] df.filters@[a]).0@ != (
                #[trigger] df.filters@[b]).0@,
            forall|j: int|
                0 <= j < i ==> {
                    let e = #[trigger] df.filters@[j];
                    let s = snap.partition_filters@[j];
                    &&& e.0@ == s.0@
                    &&& e.1.wf()
                    &&& e.1.start_date == s.1.start_date
                    &&& e.1.end_date == s.1.end_date
                    &&& forall|g: qfilter::Filter|
                        s.1.filter_data@ == #[trigger] filter_bytes(g) ==> filter_hits(e.1.filter)
                            == filter_hits(g) && filter_count(e.1.filter) == filter_count(g)
                            && filter_headroom(e.1.filter) == filter_headroom(g)
                },
        decreases n - i,
    {
        let mut j: usize = 0;
        while j < i
            invariant
                0 <= j <= i,
                i < n,
                n == snap.partition_filters@.len(),
                df.filters@.len() == i,
                forall|a: int|
                    0 <= a < i ==> (#[trigger] df.filters@[a]).0@
                        == snap.partition_filters@[a].0@,
                forall|a: int|
                    0 <= a < j ==> (#[trigger] df.filters@[a]).0@ != snap.partition_filters@[i as int].0@,
            decreases i - j,
        {
            if df.filters[j].0.eq(&snap.partition_filters[i].0) {
                proof {
                    let v = snap@;
                    assert(v.partitions[j as int].0 == snap.partition_filters@[j as int].0@);
                    assert(v.partitions[i as int].0 == snap.partition_filters@[i as int].0@);
                    assert(v.partitions[j as int].0 == v.partitions[i as int].0);
                    assert(!restorable(v));
                }
                return Err(SnapshotError::Malformed);
            }
            j += 1;
        }
        let entry = &snap.partition_filters[i];
        let start = entry.1.start_date;
        let end = entry.1.end_date;
        let start_ok = match Date::new(start.year, start.month, start.day) {
            Option::Some(_) => true,
            Option::None => false,
        };
        let end_ok = match Date::new(end.year, end.month, end.day) {
            Option::Some(_) => true,
            Option::None => false,
        };
        if !start_ok || !end_ok || !start.lt(&end) {
            proof {
                let v = snap@;
                assert(v.partitions[i as int].1 == snap.partition_filters@[i as int].1@);
                assert(!restorable(v));
            }
            return Err(SnapshotError::Malformed);
        }
        let filter = match filter_from_bytes(entry.1.filter_data.as_slice()) {
            Ok(f) => f,
            Err(e) => {
                proof {
                    let v = snap@;
                    assert(v.partitions[i as int].1 == snap.partition_filters@[i as int].1@);
                    if restorable(v) {
                        let g = choose|g: qfilter::Filter|
                            v.partitions[i as int].1.filter_data == filter_bytes(g);
                        assert(entry.1.filter_data@ == filter_bytes(g));
                        assert(false);
                    }
                }
                return Err(e);
            },
        };
        let name = entry.0.clone();
        df.filters.push((name, PartitionFilter { filter, start_date: start, end_date: end }));
        i += 1;
    }
    match &snap.future_partition {
        Option::None => {},
        Option::Some(fp) => {
            let start = fp.start_date;
            let end = fp.end_date;
            let start_ok = match Date::new(start.year, start.month, start.day) {
                Option::Some(_) => true,
                Option::None => false,
            };
            let end_ok = match Date::new(end.year, end.month, end.day) {
                Option::Some(_) => true,
                Option::None => false,
            };
            if !start_ok || !end_ok || !start.lt(&end) {
                proof {
                    assert(snap@.overflow->0 == (*fp)@);
                    assert(!restorable(snap@));
                }
                return Err(SnapshotError::Malformed);
            }
            let filter = match filter_from_bytes(fp.filter_data.as_slice()) {
                Ok(f) => f,
                Err(e) => {
                    proof {
                        assert(snap@.overflow->0 == (*fp)@);
                        if restorable(snap@) {
                            let g = choose|g: qfilter::Filter|
                                snap@.overflow->0.filter_data == filter_bytes(g);
                            assert(fp.filter_data@ == filter_bytes(g));
                            assert(false);
                        }
                    }
                    return Err(e);
                },
            };
            df.future_partition = Option::Some(
                PartitionFilter { filter, start_date: start, end_date: end },
            );
        },
    }
    Ok(df)
}

/// Decodes a payload and rebuilds the structure it holds: the loaded half of
/// the snapshot round trip. A payload that does not parse, or parses to a
/// structurally broken snapshot, is rejected as a whole.
pub fn load_snapshot_bytes(bytes: &Vec<u8>) -> (r: Result<DistributedFilter, SnapshotError>)
    ensures
        parse_snapshot(bytes@) is None ==> r is Err,
        r is Ok ==> parse_snapshot(bytes@) is Some && restored_matches(
            r->Ok_0,
            parse_snapshot(bytes@)->0,
        ),
        (parse_snapshot(bytes@) is Some && restorable(parse_snapshot(bytes@)->0)) ==> r is Ok,
{
    let snap = match decode_snapshot(bytes) {
        Ok(s) => s,
        Err(e) => {
            return Err(e);
        },
    };
    restore_from_snapshot(&snap)
}

/// Snapshot round trip: a well-formed structure captured into a snapshot
/// view and rebuilt from it answers every membership query exactly as the
/// original did, for every key and every query date.
pub proof fn lemma_snapshot_round_trip(
    df: DistributedFilter,
    v: SnapView,
    df2: DistributedFilter,
    ts: Timestamp,
)
    requires
        df.wf(),
        view_represents(v, df, ts),
        restored_matches(df2, v),
    ensures
        forall|k: Seq<char>, now: Date| df2.spec_contains(k, now) == df.spec_contains(k, now),
{
    assert forall|i: int| 0 <= i < df.filters@.len() implies filter_hits(
        (#[trigger] df2.filters@[i]).1.filter,
    ) == filter_hits(df.filters@[i].1.filter) by {
        assert(v.partitions[i].1.filter_data == filter_bytes(df.filters@[i].1.filter));
    }
    if df.future_partition is Some {
        assert(v.overflow->0.filter_data == filter_bytes(df.future_partition->0.filter));
        assert(filter_hits(df2.future_partition->0.filter) == filter_hits(
            df.future_partition->0.filter,
        ));
    }
    assert forall|k: Seq<char>, now: Date| df2.spec_contains(k, now) == df.spec_contains(
        k,
        now,
    ) by {
        if df.spec_contains(k, now) {
            if exists|i: int|
                0 <= i < df.filters@.len() && filter_hits(
                    (#[trigger] df.filters@[i]).1.filter,
                ).contains(k) {
                let i = choose|i: int|
                    0 <= i < df.filters@.len() && filter_hits(
                        (#[trigger] df.filters@[i]).1.filter,
                    ).contains(k);
                assert(filter_hits(df2.filters@[i].1.filter).contains(k));
            }
        }
        if df2.spec_contains(k, now) {
            if exists|i: int|
                0 <= i < df2.filters@.len() && filter_hits(
                    (#[trigger] df2.filters@[i]).1.filter,
                ).contains(k) {
                let i = choose|i: int|
                    0 <= i < df2.filters@.len() && filter_hits(
                        (#[trigger] df2.filters@[i]).1.filter,
                    ).contains(k);
                assert(filter_hits(df.filters@[i].1.filter).contains(k));
            }
        }
    }
}

/// One listed storage object: its key and last-modified time, in seconds.
pub struct ObjectEntry {
    pub key: String,
    pub last_modified: i64,
}

/// Picks a listing entry with the greatest last-modified time; `None`
/// exactly when the listing is empty. Ties go to the earliest listed entry.
pub fn select_latest(objects: &Vec<ObjectEntry>) -> (r: Option<usize>)
    ensures
        r is None <==> objects@.len() == 0,
        r is Some ==> 0 <= r->0 < objects@.len() && forall|j: int|
            0 <= j < objects@.len() ==> (#[trigger] objects@[j]).last_modified
                <= objects@[r->0 as int].last_modified,
{
    if objects.len() == 0 {
        return Option::None;
    }
    let mut best: usize = 0;
    let mut i: usize = 1;
    while i < objects.len()
        invariant
            0 <= best < i <= objects@.len(),
            forall|j: int|
                0 <= j < i ==> (#[trigger] objects@[j]).last_modified
                    <= objects@[best as int].last_modified,
        decreases objects@.len() - i,
    {
        if objects[i].last_modified > objects[best].last_modified {
            best = i;
        }
        i += 1;
    }
    Option::Some(best)
}

/// With pairwise-distinct timestamps, the dominating entry of a listing is
/// unique up to reordering: two listings holding the same objects, each with
/// an index whose timestamp dominates its listing, select the same object.
/// The choice does not depend on the order the store returns.
pub proof fn lemma_latest_unique(s1: Seq<ObjectEntry>, s2: Seq<ObjectEntry>, i1: int, i2: int)
    requires
        s1.to_multiset() == s2.to_multiset(),
        forall|a: int, b: int|
            0 <= a < b < s1.len() ==> (#[trigger] s1[a]).last_modified != (
            #[trigger] s1[b]).last_modified,
        0 <= i1 < s1.len(),
        0 <= i2 < s2.len(),
        forall|j: int| 0 <= j < s1.len() ==> (#[trigger] s1[j]).last_modified <= s1[i1].last_modified,
        forall|j: int| 0 <= j < s2.len() ==> (#[trigger] s2[j]).last_modified <= s2[i2].last_modified,
    ensures
        s1[i1] == s2[i2],
{
    broadcast use vstd::seq_lib::group_to_multiset_ensures;

    assert(s1.contains(s1[i1]));
    assert(s1.to_multiset().count(s1[i1]) > 0);
    assert(s2.to_multiset().count(s1[i1]) > 0);
    assert(s2.contains(s1[i1]));
    let j2 = choose|j: int| 0 <= j < s2.len() && s2[j] == s1[i1];
    assert(s2[j2].last_modified <= s2[i2].last_modified);
    assert(s2.contains(s2[i2]));
    assert(s2.to_multiset().count(s2[i2]) > 0);
    assert(s1.to_multiset().count(s2[i2]) > 0);
    assert(s1.contains(s2[i2]));
    let j1 = choose|j: int| 0 <= j < s1.len() && s1[j] == s2[i2];
    assert(s1[j1].last_modified <= s1[i1].last_modified);
    assert(s1[j1].last_modified == s1[i1].last_modified);
    if j1 < i1 {
        assert(s1[j1].last_modified != s1[i1].last_modified);
    }
    if j1 > i1 {
        assert(s1[i1].last_modified != s1[j1].last_modified);
    }
    assert(j1 == i1);
}

/// The fixed-width timestamp-and-sequence stamp of a snapshot key:
/// `YYYYMMDD_HHMMSS_NNNNNN`, 22 characters.
pub open spec fn spec_key_stamp(ts: Timestamp, sequence: u64) -> Seq<char> {
    seq![
        digit_char(ts.year as int / 1000 % 10),
        digit_char(ts.year as int / 100 % 10),
        digit_char(ts.year as int / 10 % 10),
        digit_char(ts.year as int % 10),
        digit_char(ts.month as int / 10 % 10),
        digit_char(ts.month as int % 10),
        digit_char(ts.day as int / 10 % 10),
        digit_char(ts.day as int % 10),
        '_',
        digit_char(ts.hour as int / 10 % 10),
        digit_char(ts.hour as int % 10),
        digit_char(ts.minute as int / 10 % 10),
        digit_char(ts.minute as int % 10),
        digit_char(ts.second as int / 10 % 10),
        digit_char(ts.second as int % 10),
        '_',
        digit_char(sequence as int / 100000 % 10),
        digit_char(sequence as int / 10000 % 10),
        digit_char(sequence as int / 1000 % 10),
        digit_char(sequence as int / 100 % 10),
        digit_char(sequence as int / 10 % 10),
        digit_char(sequence as int % 10),
    ]
}

/// `{prefix}/distributed_filter_{YYYYMMDD}_{HHMMSS}_{NNNNNN}.bin`. The
/// sequence number disambiguates saves within the same second, so a save
/// never overwrites an earlier object.
pub open spec fn spec_object_key(prefix: Seq<char>, ts: Timestamp, sequence: u64) -> Seq<char> {
    prefix + "/distributed_filter_"@ + spec_key_stamp(ts, sequence) + ".bin"@
}

fn push_date_digits(s: &mut String, ts: Timestamp)
    requires
        valid_timestamp(ts),
    ensures
        final(s)@ == old(s)@ + seq![
            digit_char(ts.year as int / 1000 % 10),
            digit_char(ts.year as int / 100 % 10),
            digit_char(ts.year as int / 10 % 10),
            digit_char(ts.year as int % 10),
            digit_char(ts.month as int / 10 % 10),
            digit_char(ts.month as int % 10),
            digit_char(ts.day as int / 10 % 10),
            digit_char(ts.day as int % 10),
        ],
{
    s.append(crate::naming::digit_str(ts.year / 1000));
    s.append(crate::naming::digit_str(ts.year / 100 % 10));
    s.append(crate::naming::digit_str(ts.year / 10 % 10));
    s.append(crate::naming::digit_str(ts.year % 10));
    s.append(crate::naming::digit_str(ts.month / 10));
    s.append(crate::naming::digit_str(ts.month % 10));
    s.append(crate::naming::digit_str(ts.day / 10));
    s.append(crate::naming::digit_str(ts.day % 10));
    proof {
        assert(ts.year as int / 1000 % 10 == ts.year as int / 1000);
        assert(ts.month as int / 10 % 10 == ts.month as int / 10);
        assert(ts.day as int / 10 % 10 == ts.day as int / 10);
        assert(s@ =~= old(s)@ + seq![
            digit_char(ts.year as int / 1000 % 10),
            digit_char(ts.year as int / 100 % 10),
            digit_char(ts.year as int / 10 % 10),
            digit_char(ts.year as int % 10),
            digit_char(ts.month as int / 10 % 10),
            digit_char(ts.month as int % 10),
            digit_char(ts.day as int / 10 % 10),
            digit_char(ts.day as int % 10),
        ]);
    }
}

fn push_time_digits(s: &mut String, ts: Timestamp)
    requires
        valid_timestamp(ts),
    ensures
        final(s)@ == old(s)@ + seq![
            digit_char(ts.hour as int / 10 % 10),
            digit_char(ts.hour as int % 10),
            digit_char(ts.minute as int / 10 % 10),
            digit_char(ts.minute as int % 10),
            digit_char(ts.second as int / 10 % 10),
            digit_char(ts.second as int % 10),
        ],
{
    s.append(crate::naming::digit_str(ts.hour / 10));
    s.append(crate::naming::digit_str(ts.hour % 10));
    s.append(crate::naming::digit_str(ts.minute / 10));
    s.append(crate::naming::digit_str(ts.minute % 10));
    s.append(crate::naming::digit_str(ts.second / 10));
    s.append(crate::naming::digit_str(ts.second % 10));
    proof {
        assert(ts.hour as int / 10 % 10 == ts.hour as int / 10);
        assert(ts.minute as int / 10 % 10 == ts.minute as int / 10);
        assert(ts.second as int / 10 % 10 == ts.second as int / 10);
        assert(s@ =~= old(s)@ + seq![
            digit_char(ts.hour as int / 10 % 10),
            digit_char(ts.hour as int % 10),
            digit_char(ts.minute as int / 10 % 10),
            digit_char(ts.minute as int % 10),
            digit_char(ts.second as int / 10 % 10),
            digit_char(ts.second as int % 10),
        ]);
    }
}

fn push_sequence_digits(s: &mut String, sequence: u64)
    requires
        sequence < 1000000,
    ensures
        final(s)@ == old(s)@ + seq![
            digit_char(sequence as int / 100000 % 10),
            digit_char(sequence as int / 10000 % 10),
            digit_char(sequence as int / 1000 % 10),
            digit_char(sequence as int / 100 % 10),
            digit_char(sequence as int / 10 % 10),
            digit_char(sequence as int % 10),
        ],
{
    let seq6 = sequence as u32;
    s.append(crate::naming::digit_str(seq6 / 100000));
    s.append(crate::naming::digit_str(seq6 / 10000 % 10));
    s.append(crate::naming::digit_str(seq6 / 1000 % 10));
    s.append(crate::naming::digit_str(seq6 / 100 % 10));
    s.append(crate::naming::digit_str(seq6 / 10 % 10));
    s.append(crate::naming::digit_str(seq6 % 10));
    proof {
        assert(seq6 as int / 100000 % 10 == seq6 as int / 100000);
        assert(seq6 as int == sequence as int);
        assert(s@ =~= old(s)@ + seq![
            digit_char(sequence as int / 100000 % 10),
            digit_char(sequence as int / 10000 % 10),
            digit_char(sequence as int / 1000 % 10),
            digit_char(sequence as int / 100 % 10),
            digit_char(sequence as int / 10 % 10),
            digit_char(sequence as int % 10),
        ]);
    }
}

/// Derives the object key a snapshot is stored under; `sequence` is the
/// caller's per-process save counter, folded into the key so that two saves
/// in the same second still get distinct keys.
#[verifier::rlimit(100)]
pub fn snapshot_object_key(prefix: &str, ts: Timestamp, sequence: u64) -> (r: String)
    requires
        valid_timestamp(ts),
        sequence < 1000000,
    ensures
        r@ == spec_object_key(prefix@, ts, sequence),
{
    let mut s = String::new();
    s.append(prefix);
    s.append("/distributed_filter_");
    push_date_digits(&mut s, ts);
    s.append("_");
    push_time_digits(&mut s, ts);
    s.append("_");
    push_sequence_digits(&mut s, sequence);
    s.append(".bin");
    proof {
        reveal_strlit("_");
        assert(s@ =~= spec_object_key(prefix@, ts, sequence));
    }
    s
}

#[verifier::rlimit(60)]
proof fn lemma_dec2_injective(a: int, b: int)
    requires
        0 <= a < 100,
        0 <= b < 100,
        digit_char(a / 10 % 10) == digit_char(b / 10 % 10),
        digit_char(a % 10) == digit_char(b % 10),
    ensures
        a == b,
{
    lemma_digit_char_injective(a / 10 % 10, b / 10 % 10);
    lemma_digit_char_injective(a % 10, b % 10);
    assert(a == (a / 10 % 10) * 10 + a % 10);
    assert(b == (b / 10 % 10) * 10 + b % 10);
}

#[verifier::rlimit(100)]
proof fn lemma_dec4_injective(a: int, b: int)
    requires
        0 <= a < 10000,
        0 <= b < 10000,
        digit_char(a / 1000 % 10) == digit_char(b / 1000 % 10),
        digit_char(a / 100 % 10) == digit_char(b / 100 % 10),
        digit_char(a / 10 % 10) == digit_char(b / 10 % 10),
        digit_char(a % 10) == digit_char(b % 10),
    ensures
        a == b,
{
    lemma_digit_char_injective(a / 1000 % 10, b / 1000 % 10);
    lemma_digit_char_injective(a / 100 % 10, b / 100 % 10);
    lemma_digit_char_injective(a / 10 % 10, b / 10 % 10);
    lemma_digit_char_injective(a % 10, b % 10);
    assert(a == (a / 1000 % 10) * 1000 + (a / 100 % 10) * 100 + (a / 10 % 10) * 10 + a % 10);
    assert(b == (b / 1000 % 10) * 1000 + (b / 100 % 10) * 100 + (b / 10 % 10) * 10 + b % 10);
}

#[verifier::rlimit(100)]
proof fn lemma_dec6_injective(a: int, b: int)
    requires
        0 <= a < 1000000,
        0 <= b < 1000000,
        digit_char(a / 100000 % 10) == digit_char(b / 100000 % 10),
        digit_char(a / 10000 % 10) == digit_char(b / 10000 % 10),
        digit_char(a / 1000 % 10) == digit_char(b / 1000 % 10),
        digit_char(a / 100 % 10) == digit_char(b / 100 % 10),
        digit_char(a / 10 % 10) == digit_char(b / 10 % 10),
        digit_char(a % 10) == digit_char(b % 10),
    ensures
        a == b,
{
    lemma_digit_char_injective(a / 100000 % 10, b / 100000 % 10);
    lemma_digit_char_injective(a / 10000 % 10, b / 10000 % 10);
    lemma_digit_char_injective(a / 1000 % 10, b / 1000 % 10);
    lemma_digit_char_injective(a / 100 % 10, b / 100 % 10);
    lemma_digit_char_injective(a / 10 % 10, b / 10 % 10);
    lemma_digit_char_injective(a % 10, b % 10);
    vstd::arithmetic::div_mod::lemma_div_denominator(a, 10000, 10);
    vstd::arithmetic::div_mod::lemma_div_denominator(b, 10000, 10);
    assert(a / 100000 == b / 100000);
    assert(a / 10000 == (a / 10000 / 10) * 10 + a / 10000 % 10);
    assert(b / 10000 == (b / 10000 / 10) * 10 + b / 10000 % 10);
    assert(a / 10000 == b / 10000);
    vstd::arithmetic::div_mod::lemma_div_denominator(a, 1000, 10);
    vstd::arithmetic::div_mod::lemma_div_denominator(b, 1000, 10);
    assert(a / 1000 == (a / 1000 / 10) * 10 + a / 1000 % 10);
    assert(b / 1000 == (b / 1000 / 10) * 10 + b / 1000 % 10);
    assert(a / 1000 == b / 1000);
    vstd::arithmetic::div_mod::lemma_div_denominator(a, 100, 10);
    vstd::arithmetic::div_mod::lemma_div_denominator(b, 100, 10);
    assert(a / 100 == (a / 100 / 10) * 10 + a / 100 % 10);
    assert(b / 100 == (b / 100 / 10) * 10 + b / 100 % 10);
    assert(a / 100 == b / 100);
    vstd::arithmetic::div_mod::lemma_div_denominator(a, 10, 10);
    vstd::arithmetic::div_mod::lemma_div_denominator(b, 10, 10);
    assert(a / 10 == (a / 10 / 10) * 10 + a / 10 % 10);
    assert(b / 10 == (b / 10 / 10) * 10 + b / 10 % 10);
    assert(a / 10 == b / 10);
    assert(a == (a / 10) * 10 + a % 10);
    assert(b == (b / 10) * 10 + b % 10);
}

#[verifier::rlimit(100)]
proof fn lemma_key_stamp_injective(t1: Timestamp, s1: u64, t2: Timestamp, s2: u64)
    requires
        valid_timestamp(t1),
        valid_timestamp(t2),
        s1 < 1000000,
        s2 < 1000000,
        spec_key_stamp(t1, s1) == spec_key_stamp(t2, s2),
    ensures
        t1 == t2 && s1 == s2,
{
    let st1 = spec_key_stamp(t1, s1);
    let st2 = spec_key_stamp(t2, s2);
    assert(st1[0] == st2[0] && st1[1] == st2[1] && st1[2] == st2[2] && st1[3] == st2[3]);
    assert(st1[4] == st2[4] && st1[5] == st2[5] && st1[6] == st2[6] && st1[7] == st2[7]);
    assert(st1[9] == st2[9] && st1[10] == st2[10] && st1[11] == st2[11] && st1[12] == st2[12]);
    assert(st1[13] == st2[13] && st1[14] == st2[14]);
    assert(st1[16] == st2[16] && st1[17] == st2[17] && st1[18] == st2[18] && st1[19] == st2[19]);
    assert(st1[20] == st2[20] && st1[21] == st2[21]);
    lemma_dec4_injective(t1.year as int, t2.year as int);
    lemma_dec2_injective(t1.month as int, t2.month as int);
    lemma_dec2_injective(t1.day as int, t2.day as int);
    lemma_dec2_injective(t1.hour as int, t2.hour as int);
    lemma_dec2_injective(t1.minute as int, t2.minute as int);
    lemma_dec2_injective(t1.second as int, t2.second as int);
    lemma_dec6_injective(s1 as int, s2 as int);
}

/// Distinct save calls get distinct keys: under one prefix, two snapshot
/// keys coincide exactly when both the timestamp and the sequence number
/// coincide, so a save never overwrites an earlier object.
#[verifier::rlimit(100)]
pub proof fn lemma_object_key_injective(
    prefix: Seq<char>,
    t1: Timestamp,
    s1: u64,
    t2: Timestamp,
    s2: u64,
)
    requires
        valid_timestamp(t1),
        valid_timestamp(t2),
        s1 < 1000000,
        s2 < 1000000,
    ensures
        spec_object_key(prefix, t1, s1) == spec_object_key(prefix, t2, s2) <==> (t1 == t2 && s1
            == s2),
{
    if spec_object_key(prefix, t1, s1) == spec_object_key(prefix, t2, s2) {
        reveal_strlit("/distributed_filter_");
        let st1 = spec_key_stamp(t1, s1);
        let st2 = spec_key_stamp(t2, s2);
        let off = prefix.len() + "/distributed_filter_"@.len();
        assert forall|i: int| 0 <= i < 22 implies st1[i] == st2[i] by {
            assert(spec_object_key(prefix, t1, s1)[off + i] == st1[i]);
            assert(spec_object_key(prefix, t2, s2)[off + i] == st2[i]);
        }
        assert(st1 =~= st2);
        lemma_key_stamp_injective(t1, s1, t2, s2);
    }
}

} // verus!
