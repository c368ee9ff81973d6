//! The distributed filter: one membership filter per calendar-month
//! partition, plus an optional overflow partition covering all later dates.

use vstd::prelude::*;
use crate::date::{
    Date, date_lt, date_le, valid_date, month_index, spec_month_start_plus, spec_max_date,
    first_of_month_plus, max_date, lemma_month_index_orders,
};
use crate::errors::FilterError;
use crate::membership::{
    filter_hits, filter_count, filter_headroom, filter_new, filter_contains, filter_insert,
};
use crate::naming::{generate_partition_name, spec_partition_name, lemma_partition_name_injective};

verus! {

/// Number of calendar-month partitions pre-created by provisioning.
pub const PROVISION_MONTHS: u32 = 36;

/// Capacity of each partition's membership filter.
pub const PARTITION_CAPACITY: u64 = 1000000;

/// Fingerprint width of each partition's membership filter; at the
/// provisioned capacity this targets a false-positive ratio of about one
/// percent, and lets the filter keep growing past its capacity at a degraded
/// ratio instead of failing hard.
pub const PARTITION_FINGERPRINT_BITS: u8 = 28;

/// One membership filter together with its validity window
/// `[start_date, end_date)`.
#[derive(Debug)]
pub struct PartitionFilter {
    pub filter: qfilter::Filter,
    pub start_date: Date,
    pub end_date: Date,
}

impl PartitionFilter {
    pub open spec fn wf(self) -> bool {
        &&& valid_date(self.start_date)
        &&& valid_date(self.end_date)
        &&& date_lt(self.start_date, self.end_date)
    }
}

/// A named partition list plus the optional overflow partition.
///
/// The dated partitions are held as a name-keyed association list; names are
/// pairwise distinct.
#[derive(Debug)]
pub struct DistributedFilter {
    pub filters: Vec<(String, PartitionFilter)>,
    pub future_partition: Option<PartitionFilter>,
}

pub open spec fn seq_has_name(s: Seq<(String, PartitionFilter)>, name: Seq<char>) -> bool {
    exists|i: int| 0 <= i < s.len() && (#[trigger] s[i]).0@ == name
}

pub open spec fn seq_index_of_name(s: Seq<(String, PartitionFilter)>, name: Seq<char>) -> int {
    choose|i: int| 0 <= i < s.len() && (#[trigger] s[i]).0@ == name
}

impl DistributedFilter {
    pub open spec fn wf(self) -> bool {
        &&& forall|i: int, j: int|
            0 <= i < j < self.filters@.len() ==> (#[trigger] self.filters@[i]).0@ != (
            #[trigger] self.filters@[j]).0@
        &&& forall|i: int| 0 <= i < self.filters@.len() ==> (#[trigger] self.filters@[i]).1.wf()
        &&& self.future_partition is Some ==> self.future_partition->0.wf()
    }

    pub open spec fn has_name(self, name: Seq<char>) -> bool {
        seq_has_name(self.filters@, name)
    }

    pub open spec fn index_of_name(self, name: Seq<char>) -> int {
        seq_index_of_name(self.filters@, name)
    }

    /// Union membership: a key is reported if any dated partition reports it,
    /// or if the overflow partition is active for `now` and reports it.
    pub open spec fn spec_contains(self, key: Seq<char>, now: Date) -> bool {
        ||| exists|i: int|
            0 <= i < self.filters@.len() && filter_hits(
                (#[trigger] self.filters@[i]).1.filter,
            ).contains(key)
        ||| (self.future_partition is Some && date_lt(self.future_partition->0.start_date, now)
            && filter_hits(self.future_partition->0.filter).contains(key))
    }

    /// An empty structure: no partitions, no overflow.
    pub fn new() -> (r: Result<DistributedFilter, FilterError>)
        ensures
            r is Ok,
            r->Ok_0.wf(),
            r->Ok_0.filters@.len() == 0,
            r->Ok_0.future_partition is None,
    {
        Ok(DistributedFilter { filters: Vec::new(), future_partition: None })
    }

    /// Inserts the entry under `name`, replacing the previous entry of that
    /// name if one exists (association-list update).
    fn upsert_entry(&mut self, name: String, pf: PartitionFilter)
        requires
            forall|i: int, j: int|
                0 <= i < j < old(self).filters@.len() ==> (#[trigger] old(self).filters@[i]).0@
                    != (#[trigger] old(self).filters@[j]).0@,
        ensures
            final(self).future_partition == old(self).future_partition,
            forall|i: int, j: int|
                0 <= i < j < final(self).filters@.len() ==> (#[trigger] final(self).filters@[i]).0@
                    != (#[trigger] final(self).filters@[j]).0@,
            !old(self).has_name(name@) ==> final(self).filters@ == old(self).filters@.push(
                (name, pf),
            ),
            old(self).has_name(name@) ==> final(self).filters@ == old(self).filters@.update(
                old(self).index_of_name(name@),
                (name, pf),
            ),
    {
        let n = self.filters.len();
        let mut i: usize = 0;
        while i < n
            invariant
                *self == *old(self),
                n == self.filters@.len(),
                0 <= i <= n,
                forall|j: int| 0 <= j < i ==> (#[trigger] self.filters@[j]).0@ != name@,
                forall|a: int, b: int|
                    0 <= a < b < old(self).filters@.len() ==> (#[trigger] old(self).filters@[a]).0@ != (#[trigger] old(self).filters@[b]).0@,
            decreases n - i,
        {
            if self.filters[i].0 == name {
                proof {
                    let k = old(self).index_of_name(name@);
                    assert(old(self).filters@[i as int].0@ == name@);
                    assert(0 <= k < old(self).filters@.len() && old(self).filters@[k].0@ == name@);
                    if k < i as int {
                        assert(old(self).filters@[k].0@ != old(self).filters@[i as int].0@);
                    }
                    if k > i as int {
                        assert(old(self).filters@[i as int].0@ != old(self).filters@[k].0@);
                    }
                    assert(k == i as int);
                }
                self.filters[i] = (name, pf);
                proof {
                    assert(final(self).filters@ =~= old(self).filters@.update(
                        old(self).index_of_name(name@),
                        (name, pf),
                    ));
                    let newseq = self.filters@;
                    assert forall|a: int, b: int|
                        0 <= a < b < newseq.len() implies (#[trigger] newseq[a]).0@ != (
                    #[trigger] newseq[b]).0@ by {
                        assert(newseq[a].0@ == old(self).filters@[a].0@);
                        assert(newseq[b].0@ == old(self).filters@[b].0@);
                        assert(old(self).filters@[a].0@ != old(self).filters@[b].0@);
                    }
                }
                return ;
            }
            i += 1;
        }
        proof {
            assert(!old(self).has_name(name@));
        }
        self.filters.push((name, pf));
    }

    /// Creates a fresh, empty membership filter for the given window and
    /// stores it under `partition_name`, replacing any partition already held
    /// under that name.
    pub fn create_partition_filter(
        &mut self,
        partition_name: String,
        start_date: Date,
        end_date: Date,
    ) -> (r: Result<(), FilterError>)
        requires
            old(self).wf(),
            valid_date(start_date),
            valid_date(end_date),
            date_lt(start_date, end_date),
        ensures
            r is Ok,
            final(self).wf(),
            final(self).future_partition == old(self).future_partition,
            !old(self).has_name(partition_name@) ==> {
                &&& final(self).filters@.len() == old(self).filters@.len() + 1
                &&& forall|j: int|
                    0 <= j < old(self).filters@.len() ==> final(self).filters@[j] == old(self).filters@[j]
                &&& final(self).filters@.last().0@ == partition_name@
                &&& final(self).filters@.last().1.start_date == start_date
                &&& final(self).filters@.last().1.end_date == end_date
                &&& filter_hits(final(self).filters@.last().1.filter) =~= Set::<Seq<char>>::empty()
                &&& filter_count(final(self).filters@.last().1.filter) == 0
                &&& filter_headroom(final(self).filters@.last().1.filter) >= PARTITION_CAPACITY
            },
            old(self).has_name(partition_name@) ==> {
                let k = old(self).index_of_name(partition_name@);
                &&& final(self).filters@.len() == old(self).filters@.len()
                &&& forall|j: int|
                    0 <= j < old(self).filters@.len() && j != k ==> final(self).filters@[j] == old(self).filters@[j]
                &&& final(self).filters@[k].0@ == partition_name@
                &&& final(self).filters@[k].1.start_date == start_date
                &&& final(self).filters@[k].1.end_date == end_date
                &&& filter_hits(final(self).filters@[k].1.filter) =~= Set::<Seq<char>>::empty()
                &&& filter_count(final(self).filters@[k].1.filter) == 0
                &&& filter_headroom(final(self).filters@[k].1.filter) >= PARTITION_CAPACITY
            },
    {
        let filter = match filter_new(PARTITION_CAPACITY, PARTITION_FINGERPRINT_BITS) {
            Ok(f) => f,
            Err(e) => {
                return Err(e);
            },
        };
        let pf = PartitionFilter { filter, start_date, end_date };
        self.upsert_entry(partition_name, pf);
        Ok(())
    }

    /// Union membership query over every live partition; the overflow
    /// partition is consulted only once `current_date` has passed its start.
    ///
    /// A `false` answer is authoritative absence; `true` may be a false
    /// positive.
    pub fn contains(&self, short_code: &str, current_date: Date) -> (r: bool)
        ensures
            r == self.spec_contains(short_code@, current_date),
    {
        let n = self.filters.len();
        let mut i: usize = 0;
        while i < n
            invariant
                n == self.filters@.len(),
                0 <= i <= n,
                forall|j: int|
                    0 <= j < i ==> !filter_hits((#[trigger] self.filters@[j]).1.filter).contains(
                        short_code@,
                    ),
            decreases n - i,
        {
            if filter_contains(&self.filters[i].1.filter, short_code) {
                return true;
            }
            i += 1;
        }
        if let Some(future) = &self.future_partition {
            if future.start_date.lt(&current_date) {
                return filter_contains(&future.filter, short_code);
            }
        }
        false
    }

    /// Routes `short_code` to the partition named after its expiry date's
    /// calendar month; failing that, to the overflow partition when the
    /// expiry lies strictly past its start. When neither window matches, the
    /// key is rejected with [`FilterError::NoMatchingPartition`] instead of
    /// being silently dropped.
    ///
    /// A routed insert is owed success while the target filter's stored
    /// count is below its growth ceiling; the only other failure is a
    /// capacity error, which leaves the structure untouched.
    ///
    /// On success the key is visible to every later query: always so when it
    /// went to a dated partition, and for every query date past the overflow
    /// start when it went to the overflow partition. No previously reported
    /// key ever stops being reported.
    pub fn insert(&mut self, short_code: &str, expiry_date: Date) -> (r: Result<(), FilterError>)
        requires
            old(self).wf(),
            valid_date(expiry_date),
        ensures
            final(self).wf(),
            ({
                let name = spec_partition_name(expiry_date);
                let routed_dated = old(self).has_name(name);
                let routed_overflow = !routed_dated && old(self).future_partition is Some
                    && date_lt(old(self).future_partition->0.start_date, expiry_date);
                &&& (r == Err::<(), FilterError>(FilterError::NoMatchingPartition) <==> (
                !routed_dated && !routed_overflow))
                &&& r is Err ==> final(self).filters@ == old(self).filters@ && final(self).future_partition == old(self).future_partition
                &&& r is Err ==> (r->Err_0 is NoMatchingPartition || r->Err_0 is CapacityExceeded)
                &&& (r is Ok && routed_dated) ==> {
                    let k = old(self).index_of_name(name);
                    &&& final(self).filters@.len() == old(self).filters@.len()
                    &&& forall|j: int|
                        0 <= j < old(self).filters@.len() && j != k ==> final(self).filters@[j]
                            == old(self).filters@[j]
                    &&& final(self).filters@[k].0 == old(self).filters@[k].0
                    &&& final(self).filters@[k].1.start_date == old(self).filters@[k].1.start_date
                    &&& final(self).filters@[k].1.end_date == old(self).filters@[k].1.end_date
                    &&& filter_hits(old(self).filters@[k].1.filter).insert(
                        short_code@,
                    ).subset_of(filter_hits(final(self).filters@[k].1.filter))
                    &&& filter_count(old(self).filters@[k].1.filter) <= filter_count(
                        final(self).filters@[k].1.filter,
                    ) <= filter_count(old(self).filters@[k].1.filter) + 1
                    &&& filter_headroom(final(self).filters@[k].1.filter) == filter_headroom(
                        old(self).filters@[k].1.filter,
                    )
                    &&& final(self).future_partition == old(self).future_partition
                }
                &&& (r is Ok && routed_overflow) ==> {
                    &&& final(self).filters@ == old(self).filters@
                    &&& final(self).future_partition is Some
                    &&& final(self).future_partition->0.start_date == old(self).future_partition->0.start_date
                    &&& final(self).future_partition->0.end_date == old(self).future_partition->0.end_date
                    &&& filter_hits(old(self).future_partition->0.filter).insert(
                        short_code@,
                    ).subset_of(filter_hits(final(self).future_partition->0.filter))
                    &&& filter_count(old(self).future_partition->0.filter) <= filter_count(
                        final(self).future_partition->0.filter,
                    ) <= filter_count(old(self).future_partition->0.filter) + 1
                    &&& filter_headroom(final(self).future_partition->0.filter)
                        == filter_headroom(old(self).future_partition->0.filter)
                }
                &&& ({
                    let k = old(self).index_of_name(name);
                    routed_dated && filter_count(old(self).filters@[k].1.filter)
                        < filter_headroom(old(self).filters@[k].1.filter)
                }) ==> r is Ok
                &&& (routed_overflow && filter_count(old(self).future_partition->0.filter)
                    < filter_headroom(old(self).future_partition->0.filter)) ==> r is Ok
                &&& (r is Ok && routed_dated) ==> forall|now: Date|
                    final(self).spec_contains(short_code@, now)
                &&& (r is Ok && routed_overflow) ==> forall|now: Date|
                    date_lt(old(self).future_partition->0.start_date, now) ==> final(self).spec_contains(short_code@, now)
            }),
            forall|k2: Seq<char>, now: Date|
                old(self).spec_contains(k2, now) ==> final(self).spec_contains(k2, now),
    {
        let name = generate_partition_name(expiry_date);
        let n = self.filters.len();
        let mut i: usize = 0;
        while i < n
            invariant
                *self == *old(self),
                old(self).wf(),
                n == self.filters@.len(),
                0 <= i <= n,
                name@ == spec_partition_name(expiry_date),
                forall|j: int| 0 <= j < i ==> (#[trigger] self.filters@[j]).0@ != name@,
            decreases n - i,
        {
            if self.filters[i].0 == name {
                proof {
                    let k = old(self).index_of_name(name@);
                    assert(old(self).filters@[i as int].0@ == name@);
                    assert(0 <= k < old(self).filters@.len() && old(self).filters@[k].0@ == name@);
                    if k < i as int {
                        assert(old(self).filters@[k].0@ != old(self).filters@[i as int].0@);
                    }
                    if k > i as int {
                        assert(old(self).filters@[i as int].0@ != old(self).filters@[k].0@);
                    }
                    assert(k == i as int);
                }
                let r = filter_insert(&mut self.filters[i].1.filter, short_code);
                proof {
                    if r is Err {
                        assert(final(self).filters@ =~= old(self).filters@);
                    } else {
                        assert(filter_hits(final(self).filters@[i as int].1.filter).contains(
                            short_code@,
                        ));
                        assert forall|now: Date| final(self).spec_contains(short_code@, now) by {
                            assert(0 <= i as int && (i as int) < final(self).filters@.len()
                                && filter_hits(
                                final(self).filters@[i as int].1.filter,
                            ).contains(short_code@));
                        }
                        assert forall|k2: Seq<char>, now: Date|
                            old(self).spec_contains(k2, now) implies final(self).spec_contains(
                            k2,
                            now,
                        ) by {
                            if exists|j: int|
                                0 <= j < old(self).filters@.len() && filter_hits(
                                    (#[trigger] old(self).filters@[j]).1.filter,
                                ).contains(k2) {
                                let j = choose|j: int|
                                    0 <= j < old(self).filters@.len() && filter_hits(
                                        (#[trigger] old(self).filters@[j]).1.filter,
                                    ).contains(k2);
                                if j == i as int {
                                    assert(filter_hits(old(self).filters@[j].1.filter).insert(
                                        short_code@,
                                    ).contains(k2));
                                    assert(filter_hits(
                                        final(self).filters@[j].1.filter,
                                    ).contains(k2));
                                } else {
                                    assert(final(self).filters@[j] == old(self).filters@[j]);
                                }
                            }
                        }
                    }
                }
                return r;
            }
            i += 1;
        }
        if let Some(future) = &mut self.future_partition {
            if future.start_date.lt(&expiry_date) {
                let r = filter_insert(&mut future.filter, short_code);
                proof {
                    if r is Ok {
                        assert(filter_hits(final(self).future_partition->0.filter).contains(
                            short_code@,
                        ));
                    }
                }
                return r;
            }
        }
        Err(FilterError::NoMatchingPartition)
    }

    /// Drops every partition whose window has fully elapsed, and when the
    /// overflow partition's start has come within the provisioning horizon,
    /// materializes it as a dated one-month partition (keeping its recorded
    /// keys) and clears the overflow slot.
    pub fn cleanup_expired_partitions(&mut self, current_date: Date) -> (r: Result<
        (),
        FilterError,
    >)
        requires
            old(self).wf(),
            valid_date(current_date),
            month_index(current_date) + PROVISION_MONTHS + 1 <= 9999 * 12 + 11,
        ensures
            r is Ok,
            final(self).wf(),
            ({
                let kept = spec_retain_live(old(self).filters@, current_date);
                let promote = old(self).future_partition is Some && date_le(
                    old(self).future_partition->0.start_date,
                    spec_month_start_plus(current_date, PROVISION_MONTHS as int),
                );
                &&& !promote ==> final(self).filters@ == kept && final(self).future_partition
                    == old(self).future_partition
                &&& promote ==> {
                    let fp = old(self).future_partition->0;
                    let name = spec_partition_name(fp.start_date);
                    &&& final(self).future_partition is None
                    &&& !seq_has_name(kept, name) ==> {
                        &&& final(self).filters@.len() == kept.len() + 1
                        &&& (forall|j: int| 0 <= j < kept.len() ==> final(self).filters@[j]
                            == kept[j])
                        &&& final(self).filters@.last().0@ == name
                        &&& final(self).filters@.last().1.filter == fp.filter
                        &&& final(self).filters@.last().1.start_date == fp.start_date
                        &&& final(self).filters@.last().1.end_date == spec_month_start_plus(
                            fp.start_date,
                            1,
                        )
                    }
                    &&& seq_has_name(kept, name) ==> {
                        let k = seq_index_of_name(kept, name);
                        &&& final(self).filters@.len() == kept.len()
                        &&& (forall|j: int| 0 <= j < kept.len() && j != k ==> final(self).filters@[j] == kept[j])
                        &&& final(self).filters@[k].0@ == name
                        &&& final(self).filters@[k].1.filter == fp.filter
                        &&& final(self).filters@[k].1.start_date == fp.start_date
                        &&& final(self).filters@[k].1.end_date == spec_month_start_plus(
                            fp.start_date,
                            1,
                        )
                    }
                }
            }),
    {
        let ghost orig = old(self).filters@;
        let mut pending: Vec<(String, PartitionFilter)> = Vec::new();
        core::mem::swap(&mut pending, &mut self.filters);
        proof {
            assert(self.filters@ + spec_retain_live(pending@, current_date) =~= spec_retain_live(
                orig,
                current_date,
            ));
        }
        while pending.len() > 0
            invariant
                valid_date(current_date),
                self.future_partition == old(self).future_partition,
                self.filters@ + spec_retain_live(pending@, current_date) == spec_retain_live(
                    orig,
                    current_date,
                ),
                forall|a: int, b: int|
                    0 <= a < b < self.filters@.len() ==> (#[trigger] self.filters@[a]).0@ != (
                    #[trigger] self.filters@[b]).0@,
                forall|a: int, b: int|
                    0 <= a < b < pending@.len() ==> (#[trigger] pending@[a]).0@ != (
                    #[trigger] pending@[b]).0@,
                forall|a: int, b: int|
                    0 <= a < self.filters@.len() && 0 <= b < pending@.len() ==> (
                    #[trigger] self.filters@[a]).0@ != (#[trigger] pending@[b]).0@,
                forall|a: int|
                    0 <= a < self.filters@.len() ==> (#[trigger] self.filters@[a]).1.wf(),
                forall|a: int| 0 <= a < pending@.len() ==> (#[trigger] pending@[a]).1.wf(),
                forall|a: int|
                    0 <= a < self.filters@.len() ==> date_lt(
                        current_date,
                        (#[trigger] self.filters@[a]).1.end_date,
                    ),
            decreases pending@.len(),
        {
            let ghost before = pending@;
            let e = pending.remove(0);
            proof {
                assert(pending@ =~= before.drop_first());
                assert(before.first() == e);
            }
            if current_date.lt(&e.1.end_date) {
                self.filters.push(e);
                proof {
                    assert(spec_retain_live(before, current_date) =~= seq![e] + spec_retain_live(
                        pending@,
                        current_date,
                    ));
                    assert(self.filters@ + spec_retain_live(pending@, current_date)
                        =~= spec_retain_live(orig, current_date));
                }
            } else {
                proof {
                    assert(spec_retain_live(before, current_date) =~= spec_retain_live(
                        pending@,
                        current_date,
                    ));
                }
            }
        }
        proof {
            assert(spec_retain_live(pending@, current_date) =~= Seq::<(
                String,
                PartitionFilter,
            )>::empty());
            assert(self.filters@ =~= spec_retain_live(orig, current_date));
        }
        let promote = match &self.future_partition {
            Some(fp) => {
                let horizon = first_of_month_plus(current_date, PROVISION_MONTHS);
                fp.start_date.le(&horizon)
            },
            None => false,
        };
        if promote {
            if let Some(fp) = self.future_partition.take() {
                let start = fp.start_date;
                proof {
                    let horizon = spec_month_start_plus(current_date, PROVISION_MONTHS as int);
                    assert(date_le(start, horizon));
                    assert(month_index(start) <= month_index(horizon));
                }
                let end = first_of_month_plus(start, 1);
                proof {
                    lemma_month_index_orders(start, end);
                }
                let name = generate_partition_name(start);
                let pf = PartitionFilter { filter: fp.filter, start_date: start, end_date: end };
                self.upsert_entry(name, pf);
            }
        }
        Ok(())
    }
}

/// The partitions that remain once every window ending at or before `now`
/// has been dropped, in their original order.
pub open spec fn spec_retain_live(s: Seq<(String, PartitionFilter)>, now: Date) -> Seq<
    (String, PartitionFilter),
>
    decreases s.len(),
{
    if s.len() == 0 {
        Seq::empty()
    } else if date_lt(now, s.first().1.end_date) {
        seq![s.first()] + spec_retain_live(s.drop_first(), now)
    } else {
        spec_retain_live(s.drop_first(), now)
    }
}

/// The exact shape provisioning yields for a given `now`: one empty partition
/// per calendar month for the whole horizon, tiling `[first of now's month,
/// overflow start)`, and an empty overflow partition covering everything
/// beyond.
pub open spec fn provisioned_for(df: DistributedFilter, now: Date) -> bool {
    &&& df.filters@.len() == PROVISION_MONTHS
    &&& forall|i: int|
        0 <= i < PROVISION_MONTHS ==> {
            let e = #[trigger] df.filters@[i];
            &&& e.0@ == spec_partition_name(spec_month_start_plus(now, i))
            &&& e.1.start_date == spec_month_start_plus(now, i)
            &&& e.1.end_date == spec_month_start_plus(now, i + 1)
            &&& filter_hits(e.1.filter) == Set::<Seq<char>>::empty()
            &&& filter_count(e.1.filter) == 0
            &&& filter_headroom(e.1.filter) >= PARTITION_CAPACITY
        }
    &&& df.future_partition is Some
    &&& df.future_partition->0.start_date == spec_month_start_plus(now, PROVISION_MONTHS as int)
    &&& df.future_partition->0.end_date == spec_max_date()
    &&& filter_hits(df.future_partition->0.filter) == Set::<Seq<char>>::empty()
    &&& filter_count(df.future_partition->0.filter) == 0
    &&& filter_headroom(df.future_partition->0.filter) >= PARTITION_CAPACITY
}

/// Freshly provisioned windows are pairwise non-overlapping and tile the
/// span from the first day of `now`'s month up to the overflow start:
/// consecutive windows meet exactly, and windows are ordered, so no date
/// belongs to two of them.
pub proof fn lemma_provisioned_windows_tile(df: DistributedFilter, now: Date)
    requires
        valid_date(now),
        month_index(now) + PROVISION_MONTHS + 1 <= 9999 * 12 + 11,
        provisioned_for(df, now),
    ensures
        df.filters@[0].1.start_date == spec_month_start_plus(now, 0),
        forall|i: int|
            0 <= i < df.filters@.len() - 1 ==> (#[trigger] df.filters@[i]).1.end_date
                == df.filters@[i + 1].1.start_date,
        df.filters@[df.filters@.len() - 1].1.end_date == df.future_partition->0.start_date,
        forall|i: int, j: int|
            0 <= i < j < df.filters@.len() ==> date_le(
                (#[trigger] df.filters@[i]).1.end_date,
                (#[trigger] df.filters@[j]).1.start_date,
            ),
{
    assert forall|i: int, j: int| 0 <= i < j < df.filters@.len() implies date_le(
        (#[trigger] df.filters@[i]).1.end_date,
        (#[trigger] df.filters@[j]).1.start_date,
    ) by {
        let e = spec_month_start_plus(now, i + 1);
        let s = spec_month_start_plus(now, j);
        assert(valid_date(e) && valid_date(s)) by {
            assert(12 <= month_index(now));
        }
        if i + 1 < j {
            lemma_month_index_orders(e, s);
        }
    }
}

/// Provisioning is idempotent: two structures provisioned for the same
/// `now` hold exactly the same partition names and windows.
pub proof fn lemma_provision_idempotent(
    df1: DistributedFilter,
    df2: DistributedFilter,
    now: Date,
)
    requires
        provisioned_for(df1, now),
        provisioned_for(df2, now),
    ensures
        df1.filters@.len() == df2.filters@.len(),
        forall|i: int|
            0 <= i < df1.filters@.len() ==> (#[trigger] df1.filters@[i]).0@ == (
            #[trigger] df2.filters@[i]).0@ && df1.filters@[i].1.start_date
                == df2.filters@[i].1.start_date && df1.filters@[i].1.end_date
                == df2.filters@[i].1.end_date,
        df1.future_partition->0.start_date == df2.future_partition->0.start_date,
        df1.future_partition->0.end_date == df2.future_partition->0.end_date,
{
}

/// Builds a freshly provisioned structure for `now`: `PROVISION_MONTHS`
/// empty month partitions starting at the first day of `now`'s month, plus
/// an empty overflow partition reaching to the maximum representable date.
///
/// The result is a function of `now`'s calendar month alone, so provisioning
/// is idempotent: the same `now` always yields the same partition names and
/// windows.
pub fn provision_distributed_filter(now: Date) -> (r: Result<DistributedFilter, FilterError>)
    requires
        valid_date(now),
        month_index(now) + PROVISION_MONTHS + 1 <= 9999 * 12 + 11,
    ensures
        r is Ok,
        r->Ok_0.wf(),
        provisioned_for(r->Ok_0, now),
{
    let mut df = match DistributedFilter::new() {
        Ok(d) => d,
        Err(e) => {
            return Err(e);
        },
    };
    let mut m: u32 = 0;
    while m < PROVISION_MONTHS
        invariant
            valid_date(now),
            month_index(now) + PROVISION_MONTHS + 1 <= 9999 * 12 + 11,
            0 <= m <= PROVISION_MONTHS,
            df.wf(),
            df.future_partition is None,
            df.filters@.len() == m,
            forall|i: int|
                0 <= i < m ==> {
                    let e = #[trigger] df.filters@[i];
                    &&& e.0@ == spec_partition_name(spec_month_start_plus(now, i))
                    &&& e.1.start_date == spec_month_start_plus(now, i)
                    &&& e.1.end_date == spec_month_start_plus(now, i + 1)
                    &&& filter_hits(e.1.filter) == Set::<Seq<char>>::empty()
                    &&& filter_count(e.1.filter) == 0
                    &&& filter_headroom(e.1.filter) >= PARTITION_CAPACITY
                },
        decreases PROVISION_MONTHS - m,
    {
        let start = first_of_month_plus(now, m);
        let end = first_of_month_plus(now, m + 1);
        proof {
            lemma_month_index_orders(start, end);
        }
        let pname = generate_partition_name(start);
        proof {
            assert(!df.has_name(pname@)) by {
                if df.has_name(pname@) {
                    let j = choose|j: int|
                        0 <= j < df.filters@.len() && (#[trigger] df.filters@[j]).0@ == pname@;
                    let dj = spec_month_start_plus(now, j);
                    lemma_partition_name_injective(dj, start);
                    assert(month_index(dj) == month_index(now) + j);
                    assert(month_index(start) == month_index(now) + m);
                    assert(dj.year * 12 + dj.month == start.year * 12 + start.month);
                }
            }
        }
        match df.create_partition_filter(pname, start, end) {
            Ok(_) => {},
            Err(e) => {
                return Err(e);
            },
        }
        m += 1;
    }
    let fstart = first_of_month_plus(now, PROVISION_MONTHS);
    let fend = max_date();
    proof {
        assert(month_index(fstart) <= 9999 * 12 + 10);
        assert(fstart.year <= 9999);
        assert(date_lt(fstart, fend));
    }
    let f = match filter_new(PARTITION_CAPACITY, PARTITION_FINGERPRINT_BITS) {
        Ok(f) => f,
        Err(e) => {
            return Err(e);
        },
    };
    df.future_partition = Some(PartitionFilter { filter: f, start_date: fstart, end_date: fend });
    Ok(df)
}

} // verus!
