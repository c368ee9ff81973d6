//! The membership filter: a quotient filter from the `qfilter` crate, held
//! behind trusted declarations. Its observable behaviour is modelled by
//! [`filter_hits`], the set of keys the filter currently reports as present
//! (inserted keys plus the false positives its state happens to produce), and
//! [`filter_bytes`], its serialized form.

use vstd::prelude::*;
use crate::errors::{FilterError, SnapshotError};

verus! {

#[verifier::external_type_specification]
#[verifier::external_body]
#[verifier::reject_recursive_types(B)]
#[verifier::reject_recursive_types(S)]
pub struct ExFilter<B, S>(qfilter::Filter<B, S>);

#[verifier::external_type_specification]
#[verifier::external_body]
pub struct ExStableBuildHasher(qfilter::StableBuildHasher);

/// The set of keys the filter reports as present. The filter hashes with a
/// fixed-seed, platform-stable hasher, so this is a pure function of the
/// filter's state.
pub uninterp spec fn filter_hits(f: qfilter::Filter) -> Set<Seq<char>>;

/// The serialized form of the filter, a pure function of its state.
pub uninterp spec fn filter_bytes(f: qfilter::Filter) -> Seq<u8>;

/// The filter's stored item count, a pure function of its state.
pub uninterp spec fn filter_count(f: qfilter::Filter) -> u64;

/// The hard ceiling on stored items: the capacity the filter reaches after
/// growing as far as its recorded maximum size allows. A pure function of
/// the filter's state, unchanged by insertions and growth.
pub uninterp spec fn filter_headroom(f: qfilter::Filter) -> u64;

/// Relies on `qfilter::Filter::with_fingerprint_size`: a fresh filter holds
/// nothing and reports no key as present; its growth ceiling is at least the
/// requested capacity; and construction succeeds for any capacity up to
/// thirty million items paired with 27 to 64 fingerprint bits (such
/// capacities need at most 25 quotient bits). Construction asserts CPU
/// support for the popcnt and bmi2 instructions on x86-64, as the upstream
/// constructors do; that is a machine property, not an input.
#[verifier::external_body]
pub(crate) fn filter_new(capacity: u64, fingerprint_bits: u8) -> (r: Result<
    qfilter::Filter,
    FilterError,
>)
    ensures
        r is Ok ==> filter_hits(r->Ok_0) == Set::<Seq<char>>::empty(),
        r is Ok ==> filter_count(r->Ok_0) == 0,
        r is Ok ==> filter_headroom(r->Ok_0) >= capacity,
        (1 <= capacity <= 30000000 && 27 <= fingerprint_bits <= 64) ==> r is Ok,
{
    qfilter::Filter::with_fingerprint_size(capacity, fingerprint_bits).map_err(
        |_| FilterError::Construction,
    )
}

/// Relies on `qfilter::Filter::contains`: deterministic in the filter state
/// and the key.
#[verifier::external_body]
pub(crate) fn filter_contains(f: &qfilter::Filter, key: &str) -> (r: bool)
    ensures
        r == filter_hits(*f).contains(key@),
{
    f.contains(key)
}

/// Relies on `qfilter::Filter::insert`: insertion succeeds whenever the
/// stored count is below the growth ceiling (the filter grows in place until
/// that ceiling); on success the key is recorded, every key previously
/// reported keeps being reported (growth preserves the stored fingerprints),
/// the count rises by at most one, and the ceiling is unchanged. The only
/// failure is a capacity error, returned before anything is mutated.
#[verifier::external_body]
pub(crate) fn filter_insert(f: &mut qfilter::Filter, key: &str) -> (r: Result<(), FilterError>)
    ensures
        filter_count(*old(f)) < filter_headroom(*old(f)) ==> r is Ok,
        r is Ok ==> filter_hits(*old(f)).insert(key@).subset_of(filter_hits(*final(f))),
        r is Ok ==> filter_count(*old(f)) <= filter_count(*final(f)) <= filter_count(*old(f)) + 1,
        r is Ok ==> filter_headroom(*final(f)) == filter_headroom(*old(f)),
        r is Err ==> *final(f) == *old(f) && r->Err_0 == FilterError::CapacityExceeded,
{
    match f.insert(key) {
        Ok(_) => Ok(()),
        Err(_) => Err(FilterError::CapacityExceeded),
    }
}

/// Relies on `qfilter::Filter::len`: the stored item count, used only as
/// snapshot metadata.
#[verifier::external_body]
pub(crate) fn filter_len(f: &qfilter::Filter) -> (r: u64)
    ensures
        r == filter_count(*f),
{
    f.len()
}

/// Relies on `bincode::serialize` (fixed-width integers, no size limit,
/// writing into a `Vec`): the encoding of a filter is a pure function of its
/// state, and serializing this type cannot fail, so the unwrap never fires.
#[verifier::external_body]
pub(crate) fn filter_to_bytes(f: &qfilter::Filter) -> (r: Vec<u8>)
    ensures
        r@ == filter_bytes(*f),
{
    bincode::serialize(f).unwrap()
}

/// Relies on `bincode::deserialize` and qfilter's validated deserialization:
/// decoding the exact encoding of a filter rebuilds one with the same state,
/// hence the same reported keys, count and growth ceiling (the skipped
/// hasher field is a stateless default shared by every filter the library
/// builds).
#[verifier::external_body]
pub(crate) fn filter_from_bytes(b: &[u8]) -> (r: Result<qfilter::Filter, SnapshotError>)
    ensures
        forall|g: qfilter::Filter|
            b@ == #[trigger] filter_bytes(g) ==> r is Ok && filter_hits(r->Ok_0) == filter_hits(g)
                && filter_count(r->Ok_0) == filter_count(g) && filter_headroom(r->Ok_0)
                == filter_headroom(g),
{
    bincode::deserialize(b).map_err(|_| SnapshotError::FilterDecode)
}

} // verus!
