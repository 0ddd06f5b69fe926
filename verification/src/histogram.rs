//! Histograms of recorded values.
use hdrhistogram::Histogram;
use vstd::multiset::Multiset;
use vstd::prelude::*;

verus! {

/// A `hdrhistogram::Histogram` of 64-bit counts: it counts recorded values, similar ones
/// together.
#[verifier::external_body]
#[derive(Debug)]
pub struct Samples {
    inner: Histogram<u64>,
}

/// The values that were recorded in a histogram.
pub uninterp spec fn recorded(h: Samples) -> Multiset<u64>;

/// The highest value that a histogram tracks.
pub uninterp spec fn top(h: Samples) -> u64;

/// How many decimal digits of a value a histogram keeps.
pub uninterp spec fn precision(h: Samples) -> u8;

/// What `Histogram::min` gives: the lowest recorded value, to the precision of the histogram.
pub uninterp spec fn lowest(h: Samples) -> u64;

/// What `Histogram::max` gives: the highest recorded value, to the precision of the histogram.
pub uninterp spec fn highest(h: Samples) -> u64;

/// What `Histogram::iter_recorded` gives: each recorded value, to the precision of the
/// histogram, with the number of times it was recorded.
pub uninterp spec fn buckets(h: Samples) -> Seq<(u64, u64)>;

/// `Histogram::new_with_bounds` for values that are told apart from 1 on: an empty histogram
/// of the given range comes back just where the range is at least 2 and the precision at most
/// five digits.
#[verifier::external_body]
pub(crate) fn new_histogram(high: u64, sigfig: u8) -> (r: Option<Samples>)
    ensures
        r is Some <==> (high >= 2 && sigfig <= 5),
        r matches Some(h) ==> recorded(h) == Multiset::<u64>::empty() && top(h) == high
            && precision(h) == sigfig,
{
    match Histogram::new_with_bounds(1, high, sigfig) {
        Ok(inner) => Some(Samples { inner }),
        Err(_) => None,
    }
}

/// `Histogram::record`: a value up to the highest that is tracked is recorded. The range of
/// the histogram stays.
#[verifier::external_body]
pub(crate) fn record_value(h: &mut Samples, value: u64) -> (r: bool)
    ensures
        value <= top(*old(h)) ==> r,
        top(*final(h)) == top(*old(h)),
        precision(*final(h)) == precision(*old(h)),
        r ==> recorded(*final(h)) == recorded(*old(h)).insert(value),
        !r ==> recorded(*final(h)) == recorded(*old(h)),
{
    h.inner.record(value).is_ok()
}

/// `Histogram::add`: the values of a histogram of the same range and precision are added, if
/// the range lies in the lower half of the 64-bit numbers. The range of the histogram stays.
#[verifier::external_body]
pub(crate) fn add_values(h: &mut Samples, other: &Samples) -> (r: bool)
    ensures
        top(*old(h)) < 0x8000_0000_0000_0000 && top(*other) == top(*old(h)) && precision(*other)
            == precision(*old(h)) ==> r,
        top(*final(h)) == top(*old(h)),
        precision(*final(h)) == precision(*old(h)),
        r ==> recorded(*final(h)) == recorded(*old(h)).add(recorded(*other)),
        !r ==> recorded(*final(h)) == recorded(*old(h)),
{
    h.inner.add(&other.inner).is_ok()
}

/// `Histogram::len`: how many values were recorded, up to the largest 64-bit number.
#[verifier::external_body]
pub(crate) fn histogram_len(h: &Samples) -> (n: u64)
    ensures
        recorded(*h).len() <= u64::MAX ==> n == recorded(*h).len(),
        recorded(*h).len() > u64::MAX ==> n == u64::MAX,
{
    h.inner.len()
}

/// `Histogram::min`.
#[verifier::external_body]
pub(crate) fn histogram_min(h: &Samples) -> (n: u64)
    ensures
        n == lowest(*h),
{
    h.inner.min()
}

/// `Histogram::max`.
#[verifier::external_body]
pub(crate) fn histogram_max(h: &Samples) -> (n: u64)
    ensures
        n == highest(*h),
{
    h.inner.max()
}

/// `Histogram::iter_recorded`, as a vector of pairs.
#[verifier::external_body]
pub(crate) fn histogram_buckets(h: &Samples) -> (v: Vec<(u64, u64)>)
    ensures
        v@ == buckets(*h),
{
    h.inner.iter_recorded().map(|b| (b.value_iterated_to(), b.count_at_value())).collect()
}

} // verus!
