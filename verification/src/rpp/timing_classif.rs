//! Tells a cache hit from a cache miss by access time.
use crate::connection::Time;
use crate::error::Error;
use hdrhistogram::Histogram;
use vstd::multiset::Multiset;
use vstd::prelude::*;

verus! {

/// Percentile of the recorded times that stands for a cluster.
pub const PERCENTILE: u8 = 50;

/// Number of significant decimal digits that the histograms keep, the most
/// that they offer.
pub const SIGNIFICANT_DIGITS: u8 = 5;

/// A histogram of `hdrhistogram` that counts access times. Its buckets are
/// not visible to the verifier: what it holds is spoken of through
/// [`recorded`].
#[verifier::external_body]
pub struct TimeHistogram {
    inner: Histogram<u64>,
}

/// The error that `hdrhistogram` gives when a value cannot be recorded.
#[verifier::external_type_specification]
#[verifier::external_body]
pub struct ExRecordError(hdrhistogram::RecordError);

/// The values that were recorded into a histogram, each as often as it was
/// recorded.
pub uninterp spec fn recorded(h: TimeHistogram) -> Multiset<Time>;

/// The number of significant decimal digits that a histogram was made with.
pub uninterp spec fn digits(h: TimeHistogram) -> u8;

/// What `Histogram::value_at_percentile` gives for `percentile` on an
/// auto-resizing histogram of `digits` significant digits that holds
/// `samples`.
pub uninterp spec fn value_at_percentile(samples: Multiset<Time>, digits: u8, percentile: u8) -> Time;

/// A histogram of [`SIGNIFICANT_DIGITS`] digits has a bin of its own for
/// every time below this one.
pub const EXACT_BELOW: Time = 262_144;

/// A histogram handles the number of its values as a floating-point number,
/// which is exact below this number.
pub const COUNTED_EXACTLY_BELOW: u64 = 9_007_199_254_740_992;

/// Times that a histogram of [`SIGNIFICANT_DIGITS`] digits keeps as they
/// are: each of them has a bin of its own, and their number is handled
/// exactly.
pub open spec fn kept_exactly(samples: Multiset<Time>) -> bool {
    &&& 0 < samples.len() < COUNTED_EXACTLY_BELOW
    &&& forall|t: Time| samples.contains(t) ==> t < EXACT_BELOW
}

/// `v` is the lower median of the times: fewer than half of them are below
/// `v`, and at least half of them are no more than `v`.
pub open spec fn lower_median(samples: Multiset<Time>, v: Time) -> bool {
    &&& 2 * samples.filter(|t: Time| t < v).len() < samples.len()
    &&& samples.len() <= 2 * samples.filter(|t: Time| t <= v).len()
}

/// The lower median of times that are all the same is that time.
pub proof fn lemma_median_of_equal_times(samples: Multiset<Time>, c: Time, v: Time)
    requires
        forall|t: Time| samples.contains(t) ==> t == c,
        lower_median(samples, v),
    ensures
        v == c,
{
    broadcast use vstd::multiset::group_multiset_axioms;

    if v < c {
        let upto = samples.filter(|t: Time| t <= v);
        assert forall|t: Time| upto.count(t) == 0 by {
            if samples.count(t) > 0 {
                assert(samples.contains(t));
            }
        }
        assert(upto =~= Multiset::<Time>::empty());
    } else if v > c {
        let below = samples.filter(|t: Time| t < v);
        assert forall|t: Time| below.count(t) == samples.count(t) by {
            if samples.count(t) > 0 {
                assert(samples.contains(t));
            }
        }
        assert(below =~= samples);
    }
}

/// `Histogram::new`: an auto-resizing histogram with nothing recorded. With
/// no more than five significant digits asked for, the bounds that `new`
/// passes on (lowest value 1, highest value 2) are accepted and the first
/// allocation fits any `usize`, so the construction does not fail.
#[verifier::external_body]
fn new_histogram(sigfig: u8) -> (h: TimeHistogram)
    requires
        sigfig <= 5,
    ensures
        recorded(h) == Multiset::<Time>::empty(),
        digits(h) == sigfig,
{
    TimeHistogram { inner: Histogram::new(sigfig).unwrap() }
}

/// `Histogram::record` on an auto-resizing histogram: the value is counted
/// once more, and the number of digits stays. Such a histogram refuses a
/// value only where its bins, resized to hold the value, would be more than
/// a `usize` counts; at five digits the largest value there is asks for
/// 6,291,456 bins, so that no value is refused.
#[verifier::external_body]
fn record_value(h: &mut TimeHistogram, value: Time) -> (r: Result<(), hdrhistogram::RecordError>)
    ensures
        r is Ok,
        recorded(*final(h)) == recorded(*old(h)).insert(value),
        digits(*final(h)) == digits(*old(h)),
{
    h.inner.record(value)
}

/// `Histogram::value_at_percentile`: a function of what was recorded, of the
/// number of digits and of the percentile alone. The histogram walks its
/// bins from the lowest one up to the first at which it has counted the
/// given share of its values, rounded up. Where every value has a bin of
/// its own and their number is handled exactly, the value of that bin is,
/// for a share of one half, the lower median of the values.
#[verifier::external_body]
fn percentile_of(h: &TimeHistogram, percentile: u8) -> (v: Time)
    ensures
        v == value_at_percentile(recorded(*h), digits(*h), percentile),
        digits(*h) == 5 && percentile == 50 && kept_exactly(recorded(*h)) ==> lower_median(
            recorded(*h),
            v,
        ),
{
    h.inner.value_at_percentile(percentile.into())
}

/// A timing together with what it is known, or judged, to be.
#[derive(Clone, Copy, Debug, PartialEq, Eq, Structural)]
pub enum CacheTiming {
    Hit(Time),
    Miss(Time),
}

impl CacheTiming {
    /// The time that was measured.
    pub fn time(self) -> (t: Time)
        ensures
            self == CacheTiming::Hit(t) || self == CacheTiming::Miss(t),
    {
        match self {
            CacheTiming::Hit(t) => t,
            CacheTiming::Miss(t) => t,
        }
    }

    /// Tests whether the value is a `Hit`.
    pub fn is_hit(&self) -> (b: bool)
        ensures
            b <==> self is Hit,
    {
        match self {
            CacheTiming::Hit(_) => true,
            CacheTiming::Miss(_) => false,
        }
    }

    /// Tests whether the value is a `Miss`.
    pub fn is_miss(&self) -> (b: bool)
        ensures
            b <==> self is Miss,
    {
        match self {
            CacheTiming::Hit(_) => false,
            CacheTiming::Miss(_) => true,
        }
    }
}

/// How far two times are apart.
pub open spec fn distance(a: Time, b: Time) -> int {
    if a >= b {
        a - b
    } else {
        b - a
    }
}

/// The time `t` lies strictly nearer to the centroid of the misses than to
/// that of the hits.
pub open spec fn nearer_to_miss(hit_centroid: Time, miss_centroid: Time, t: Time) -> bool {
    distance(miss_centroid, t) < distance(hit_centroid, t)
}

/// The centroid of a cluster of times: their median as the histogram gives it.
pub open spec fn centroid(samples: Multiset<Time>) -> Time {
    value_at_percentile(samples, SIGNIFICANT_DIGITS, PERCENTILE)
}

/// Judges `t` against the two centroids: a miss if it lies strictly nearer to
/// the centroid of the misses, a hit otherwise, so that a tie goes to the hit.
pub fn judge(hit_centroid: Time, miss_centroid: Time, t: Time) -> (r: CacheTiming)
    ensures
        r == if nearer_to_miss(hit_centroid, miss_centroid, t) {
            CacheTiming::Miss(t)
        } else {
            CacheTiming::Hit(t)
        },
{
    let to_miss = if miss_centroid >= t {
        miss_centroid - t
    } else {
        t - miss_centroid
    };
    let to_hit = if hit_centroid >= t {
        hit_centroid - t
    } else {
        t - hit_centroid
    };
    if to_miss < to_hit {
        CacheTiming::Miss(t)
    } else {
        CacheTiming::Hit(t)
    }
}

/// Classifier of access timings. It is trained by recording timings that are
/// known to be hits or misses, which it collects in two clusters.
pub struct TimingClassifier {
    hits: TimeHistogram,
    misses: TimeHistogram,
    hit_centroid: Time,
    miss_centroid: Time,
    has_hits: bool,
    has_misses: bool,
}

impl TimingClassifier {
    /// The times recorded as hits.
    pub closed spec fn hit_samples(&self) -> Multiset<Time> {
        recorded(self.hits)
    }

    /// The times recorded as misses.
    pub closed spec fn miss_samples(&self) -> Multiset<Time> {
        recorded(self.misses)
    }

    /// The centroids that are kept at hand are those of the two clusters.
    pub closed spec fn wf(&self) -> bool {
        &&& digits(self.hits) == SIGNIFICANT_DIGITS
        &&& digits(self.misses) == SIGNIFICANT_DIGITS
        &&& self.has_hits <==> self.hit_samples().len() > 0
        &&& self.has_misses <==> self.miss_samples().len() > 0
        &&& self.has_hits ==> self.hit_centroid == centroid(self.hit_samples())
        &&& self.has_misses ==> self.miss_centroid == centroid(self.miss_samples())
        &&& self.has_hits && kept_exactly(self.hit_samples()) ==> lower_median(
            self.hit_samples(),
            self.hit_centroid,
        )
        &&& self.has_misses && kept_exactly(self.miss_samples()) ==> lower_median(
            self.miss_samples(),
            self.miss_centroid,
        )
    }

    /// Both clusters hold at least one time.
    pub open spec fn is_trained(&self) -> bool {
        self.hit_samples().len() > 0 && self.miss_samples().len() > 0
    }

    /// What the classifier makes of `t`: a miss only when it is trained and
    /// `t` lies strictly nearer to the misses.
    pub open spec fn judgement(&self, t: Time) -> CacheTiming {
        if self.is_trained() && nearer_to_miss(
            centroid(self.hit_samples()),
            centroid(self.miss_samples()),
            t,
        ) {
            CacheTiming::Miss(t)
        } else {
            CacheTiming::Hit(t)
        }
    }

    /// A classifier that has seen no timing yet.
    pub fn new() -> (c: TimingClassifier)
        ensures
            c.wf(),
            c.hit_samples() == Multiset::<Time>::empty(),
            c.miss_samples() == Multiset::<Time>::empty(),
    {
        let hits = new_histogram(SIGNIFICANT_DIGITS);
        let misses = new_histogram(SIGNIFICANT_DIGITS);
        TimingClassifier {
            hits,
            misses,
            hit_centroid: 0,
            miss_centroid: 0,
            has_hits: false,
            has_misses: false,
        }
    }

    /// Forgets every recorded timing.
    pub fn clear(&mut self)
        ensures
            final(self).wf(),
            final(self).hit_samples() == Multiset::<Time>::empty(),
            final(self).miss_samples() == Multiset::<Time>::empty(),
    {
        *self = TimingClassifier::new();
    }

    /// Records a timing in the cluster that it names and brings the centroid
    /// of that cluster up to date. The histogram takes every value, so that
    /// this does not fail.
    pub fn record(&mut self, timing: CacheTiming) -> (r: Result<(), Error>)
        requires
            old(self).wf(),
        ensures
            final(self).wf(),
            r is Ok,
            match timing {
                CacheTiming::Hit(t) => final(self).hit_samples() == old(self).hit_samples().insert(t)
                    && final(self).miss_samples() == old(self).miss_samples(),
                CacheTiming::Miss(t) => final(self).miss_samples() == old(self).miss_samples().insert(
                    t,
                ) && final(self).hit_samples() == old(self).hit_samples(),
            },
    {
        broadcast use vstd::multiset::group_multiset_properties;

        match timing {
            CacheTiming::Hit(t) => {
                match record_value(&mut self.hits, t) {
                    Ok(()) => {
                        self.hit_centroid = percentile_of(&self.hits, PERCENTILE);
                        self.has_hits = true;
                        Ok(())
                    },
                    Err(_) => Err(Error::Unrecordable),
                }
            },
            CacheTiming::Miss(t) => {
                match record_value(&mut self.misses, t) {
                    Ok(()) => {
                        self.miss_centroid = percentile_of(&self.misses, PERCENTILE);
                        self.has_misses = true;
                        Ok(())
                    },
                    Err(_) => Err(Error::Unrecordable),
                }
            },
        }
    }

    /// Classifies the given timing by the nearer centroid. A tie goes to the
    /// hit, and so does every timing while a cluster is still empty.
    pub fn classify(&self, t: Time) -> (r: CacheTiming)
        requires
            self.wf(),
        ensures
            r == self.judgement(t),
    {
        if self.has_hits && self.has_misses {
            judge(self.hit_centroid, self.miss_centroid, t)
        } else {
            CacheTiming::Hit(t)
        }
    }

    /// A classifier that has recorded no miss judges no timing a miss, and
    /// neither does one that has recorded no hit.
    pub proof fn lemma_untrained_sees_no_miss(&self, t: Time)
        requires
            self.miss_samples().len() == 0 || self.hit_samples().len() == 0,
        ensures
            self.judgement(t) is Hit,
    {
    }

    /// The centroid of a cluster of times that the histogram keeps as they
    /// are is their lower median.
    pub proof fn lemma_centroids_are_medians(&self)
        requires
            self.wf(),
        ensures
            kept_exactly(self.hit_samples()) ==> lower_median(
                self.hit_samples(),
                centroid(self.hit_samples()),
            ),
            kept_exactly(self.miss_samples()) ==> lower_median(
                self.miss_samples(),
                centroid(self.miss_samples()),
            ),
    {
    }

    /// A classifier that has recorded one time as a hit, any number of
    /// times, and one time as a miss judges a timing by these two times: a
    /// miss if it lies strictly nearer to the time of the misses, else a
    /// hit.
    pub proof fn lemma_two_times_decide(&self, hit: Time, miss: Time, t: Time)
        requires
            self.wf(),
            kept_exactly(self.hit_samples()),
            kept_exactly(self.miss_samples()),
            forall|x: Time| self.hit_samples().contains(x) ==> x == hit,
            forall|x: Time| self.miss_samples().contains(x) ==> x == miss,
        ensures
            self.judgement(t) == if nearer_to_miss(hit, miss, t) {
                CacheTiming::Miss(t)
            } else {
                CacheTiming::Hit(t)
            },
    {
        self.lemma_centroids_are_medians();
        lemma_median_of_equal_times(self.hit_samples(), hit, centroid(self.hit_samples()));
        lemma_median_of_equal_times(self.miss_samples(), miss, centroid(self.miss_samples()));
    }

    /// Tests whether a given timing is a hit.
    pub fn is_hit(&self, t: Time) -> (b: bool)
        requires
            self.wf(),
        ensures
            b <==> self.judgement(t) is Hit,
    {
        self.classify(t).is_hit()
    }

    /// Tests whether a given timing is a miss. It is none as long as no miss,
    /// or no hit, has been recorded.
    pub fn is_miss(&self, t: Time) -> (b: bool)
        requires
            self.wf(),
        ensures
            b <==> self.judgement(t) is Miss,
            self.miss_samples().len() == 0 ==> !b,
            self.hit_samples().len() == 0 ==> !b,
    {
        self.classify(t).is_miss()
    }
}

} // verus!
