//! Histograms: how many values fell within each of a row of bounds.

use crate::encoding::{Encode, EncodeMetric, Encoder};
use crate::number::{Bound, Number};
use crate::output::{Output, OutputError};
use vstd::prelude::*;
use vstd::string::*;

verus! {

/// Counts of measured values by size. Each bucket counts the values that lie
/// within its bound, those of the buckets before it included; the last bucket
/// has no bound and counts every value. Beside the buckets stand the number
/// of values and their sum.
///
/// The sum is a real number, which this library holds and does not compute:
/// whoever hands in a value hands in the new sum with it.
#[derive(Clone, Debug)]
pub struct Histogram {
    buckets: Vec<(Bound, u64)>,
    sum: Number,
    count: u64,
}

/// Whether `bounds` can be the bounds of a histogram: each is at most the
/// next, and none but the last is without bound.
pub open spec fn accepted(bounds: Seq<Bound>) -> bool {
    &&& forall|i: int| 0 <= i < bounds.len() - 1 ==> (#[trigger] bounds[i]) is Finite
    &&& forall|i: int, j: int|
        #![trigger bounds[i], bounds[j]]
        0 <= i <= j < bounds.len() ==> bounds[i].at_most(&bounds[j])
}

/// The bounds with the bucket that takes every value at their end: it is
/// added where `bounds` does not end with it.
pub open spec fn completed(bounds: Seq<Bound>) -> Seq<Bound> {
    if bounds.len() > 0 && bounds.last() is Infinite {
        bounds
    } else {
        bounds.push(Bound::Infinite)
    }
}

/// A bucket for each of `bounds`, with a count of zero.
pub open spec fn empty_buckets(bounds: Seq<Bound>) -> Seq<(Bound, u64)> {
    Seq::new(bounds.len(), |i: int| (bounds[i], 0u64))
}

/// Whether the bounds of `buckets` ascend and end with the bucket that takes
/// every value.
pub open spec fn ascending(buckets: Seq<(Bound, u64)>) -> bool {
    &&& buckets.len() > 0
    &&& buckets.last().0 is Infinite
    &&& forall|i: int| 0 <= i < buckets.len() - 1 ==> (#[trigger] buckets[i]).0 is Finite
    &&& forall|i: int, j: int|
        #![trigger buckets[i], buckets[j]]
        0 <= i <= j < buckets.len() ==> buckets[i].0.at_most(&buckets[j].0)
}

/// Whether the counts of `buckets` are those of `count` values: none is
/// larger than the next, and the last is `count`.
pub open spec fn cumulative(buckets: Seq<(Bound, u64)>, count: u64) -> bool {
    &&& buckets.len() > 0
    &&& buckets.last().1 == count
    &&& forall|i: int, j: int|
        #![trigger buckets[i], buckets[j]]
        0 <= i <= j < buckets.len() ==> buckets[i].1 <= buckets[j].1
}

/// The buckets once a value of rank `rank` was counted: each bucket whose
/// bound the value lies within counts one more.
pub open spec fn observed(buckets: Seq<(Bound, u64)>, rank: i64) -> Seq<(Bound, u64)> {
    Seq::new(
        buckets.len(),
        |i: int|
            (
                buckets[i].0,
                if buckets[i].0.covers(rank) {
                    (buckets[i].1 + 1) as u64
                } else {
                    buckets[i].1
                },
            ),
    )
}

impl View for Histogram {
    type V = Seq<(Bound, u64)>;

    /// The buckets in ascending order, each as its bound and its count.
    closed spec fn view(&self) -> Seq<(Bound, u64)> {
        self.buckets@
    }
}

impl Histogram {
    /// The sum of the values.
    pub closed spec fn summed(&self) -> Number {
        self.sum
    }

    /// The sum of the values as a document shows it, in UTF-8.
    pub open spec fn sum_bytes(&self) -> Seq<u8> {
        vstd::utf8::encode_utf8(self.summed().text@)
    }

    /// The number of values.
    pub closed spec fn total(&self) -> u64 {
        self.count
    }

    /// Whether the histogram is as every histogram is that was made by `new`
    /// and changed by `observe`: its bounds ascend to the bucket that takes
    /// every value, and its counts are cumulative.
    pub open spec fn wf(&self) -> bool {
        &&& ascending(self@)
        &&& cumulative(self@, self.total())
    }

    /// A histogram with a bucket for each of `bounds` and, where `bounds` does
    /// not end with it, the bucket that takes every value. There is none
    /// where the bounds do not ascend, or where one of them but the last is
    /// without bound.
    pub fn new(bounds: Vec<Bound>) -> (made: Option<Histogram>)
        ensures
            made is Some <==> accepted(bounds@),
            match made {
                Some(histogram) => {
                    &&& histogram@ == empty_buckets(completed(bounds@))
                    &&& histogram.total() == 0
                    &&& histogram.summed().bits == 0
                    &&& histogram.sum_bytes() == seq![48u8]
                    &&& histogram.wf()
                },
                None => true,
            },
    {
        if !are_accepted(&bounds) {
            return None;
        }
        let ghost given = bounds@;
        let n = bounds.len();
        let ends_open = n > 0 && bounds[n - 1].is_infinite();
        let mut buckets: Vec<(Bound, u64)> = Vec::new();
        for bound in it: bounds
            invariant
                it.seq() == given,
                buckets@ == empty_buckets(given.take(it.index() as int)),
        {
            buckets.push((bound, 0));
            assert(buckets@ =~= empty_buckets(given.take(it.index() + 1)));
        }
        assert(given.take(given.len() as int) =~= given);
        if !ends_open {
            buckets.push((Bound::Infinite, 0));
        }
        proof {
            assert(buckets@ =~= empty_buckets(completed(given)));
        }
        Some(Histogram { buckets, sum: Number::zero(), count: 0 })
    }

    /// Counts `value`: every bucket whose bound it lies within counts one
    /// more, and so does the number of values. `sum` is the sum of all values
    /// counted so far, this one included.
    pub fn observe(&mut self, value: &Number, sum: Number)
        requires
            old(self).wf(),
            old(self).total() < u64::MAX,
        ensures
            final(self).wf(),
            final(self)@ == observed(old(self)@, value.rank()),
            final(self).total() == old(self).total() + 1,
            final(self).summed() == sum,
    {
        let mut i: usize = 0;
        while i < self.buckets.len()
            invariant
                i <= self.buckets@.len(),
                self.buckets@.len() == old(self)@.len(),
                self.count == old(self).count,
                old(self).wf(),
                old(self).total() < u64::MAX,
                forall|k: int|
                    0 <= k < i ==> self.buckets@[k] == observed(old(self)@, value.rank())[k],
                forall|k: int| i <= k < self.buckets@.len() ==> self.buckets@[k] == old(self)@[k],
            decreases self.buckets@.len() - i,
        {
            if self.buckets[i].0.holds(value) {
                assert(old(self)@[i as int].1 <= old(self)@.last().1);
                self.buckets[i].1 = self.buckets[i].1 + 1;
            }
            i = i + 1;
        }
        self.count = self.count + 1;
        self.sum = sum;
        proof {
            assert(self.buckets@ =~= observed(old(self)@, value.rank()));
            lemma_observed_keeps_well_formed(old(self)@, old(self).count, value.rank());
        }
    }

    /// The sum of the values.
    pub fn sum(&self) -> (sum: &Number)
        ensures
            *sum == self.summed(),
    {
        &self.sum
    }

    /// The number of values.
    pub fn count(&self) -> (count: u64)
        ensures
            count == self.total(),
    {
        self.count
    }

    /// The buckets in ascending order, each as its bound and its count.
    pub fn buckets(&self) -> (buckets: &Vec<(Bound, u64)>)
        ensures
            buckets@ == self@,
    {
        &self.buckets
    }
}

/// The histogram that a family makes for a new series: one bucket, which
/// takes every value.
impl Default for Histogram {
    fn default() -> (histogram: Histogram)
        ensures
            histogram@ == seq![(Bound::Infinite, 0u64)],
            histogram.total() == 0,
            histogram.summed().bits == 0,
            histogram.sum_bytes() == seq![48u8],
            histogram.wf(),
    {
        let mut buckets: Vec<(Bound, u64)> = Vec::new();
        buckets.push((Bound::Infinite, 0));
        proof {
            assert(buckets@ =~= seq![(Bound::Infinite, 0u64)]);
        }
        Histogram { buckets, sum: Number::zero(), count: 0 }
    }
}

/// Whether `bounds` can be the bounds of a histogram.
fn are_accepted(bounds: &Vec<Bound>) -> (yes: bool)
    ensures
        yes == accepted(bounds@),
{
    let n = bounds.len();
    let mut i: usize = 0;
    while i < n
        invariant
            i <= n,
            n == bounds@.len(),
            accepted(bounds@.take(i as int)),
            forall|k: int| 0 <= k < i && k + 1 < n ==> (#[trigger] bounds@[k]) is Finite,
        decreases n - i,
    {
        if i + 1 < n && bounds[i].is_infinite() {
            assert(!(bounds@[i as int] is Finite));
            return false;
        }
        if i > 0 {
            match (&bounds[i - 1], &bounds[i]) {
                (Bound::Finite(a), Bound::Finite(b)) => {
                    if !a.at_most(b) {
                        assert(!bounds@[i - 1].at_most(&bounds@[i as int]));
                        return false;
                    }
                },
                _ => {},
            }
        }
        proof {
            let before = bounds@.take(i as int);
            let upto = bounds@.take(i + 1);
            assert forall|k: int, j: int|
                #![trigger upto[k], upto[j]]
                0 <= k <= j < upto.len() implies upto[k].at_most(&upto[j]) by {
                if j < i {
                    assert(before[k].at_most(&before[j]));
                } else if k < i {
                    assert(before[k].at_most(&before[i - 1]));
                    assert(bounds@[k] is Finite);
                    assert(bounds@[i - 1] is Finite);
                }
            }
            assert forall|k: int| 0 <= k < upto.len() - 1 implies (#[trigger] upto[k])
                is Finite by {
                assert(bounds@[k] is Finite);
            }
        }
        i = i + 1;
    }
    assert(bounds@.take(n as int) =~= bounds@);
    true
}

/// Counting a value leaves a histogram as a histogram is.
pub proof fn lemma_observed_keeps_well_formed(buckets: Seq<(Bound, u64)>, count: u64, rank: i64)
    requires
        ascending(buckets),
        cumulative(buckets, count),
        count < u64::MAX,
    ensures
        ascending(observed(buckets, rank)),
        cumulative(observed(buckets, rank), (count + 1) as u64),
{
    let after = observed(buckets, rank);
    assert(buckets.last().0.covers(rank));
    assert forall|i: int, j: int|
        #![trigger after[i], after[j]]
        0 <= i <= j < after.len() implies after[i].1 <= after[j].1 by {
        assert(buckets[i].1 <= buckets[j].1);
        assert(buckets[j].1 <= buckets.last().1);
        assert(buckets[i].0.at_most(&buckets[j].0));
    }
    assert forall|i: int, j: int|
        #![trigger after[i], after[j]]
        0 <= i <= j < after.len() implies after[i].0.at_most(&after[j].0) by {
        assert(buckets[i].0.at_most(&buckets[j].0));
    }
    assert forall|i: int| 0 <= i < after.len() - 1 implies (#[trigger] after[i]).0 is Finite by {
        assert(buckets[i].0 is Finite);
    }
}

/// The buckets once values of the ranks `ranks` were counted, one after the
/// other.
pub open spec fn observed_all(buckets: Seq<(Bound, u64)>, ranks: Seq<i64>) -> Seq<(Bound, u64)>
    decreases ranks.len(),
{
    if ranks.len() == 0 {
        buckets
    } else {
        observed(observed_all(buckets, ranks.drop_last()), ranks.last())
    }
}

/// Whatever values a histogram counts, and however many, as long as their
/// number fits in 64 bits: no bucket holds more than the next, and the last
/// bucket holds the number of values.
pub proof fn lemma_buckets_stay_cumulative(buckets: Seq<(Bound, u64)>, count: u64, ranks: Seq<i64>)
    requires
        ascending(buckets),
        cumulative(buckets, count),
        count + ranks.len() <= u64::MAX,
    ensures
        ({
            let after = observed_all(buckets, ranks);
            &&& ascending(after)
            &&& cumulative(after, (count + ranks.len()) as u64)
            &&& after.len() == buckets.len()
            &&& forall|i: int|
                0 <= i < after.len() - 1 ==> (#[trigger] after[i]).1 <= after[i + 1].1
            &&& after.last().1 == count + ranks.len()
        }),
    decreases ranks.len(),
{
    if ranks.len() > 0 {
        lemma_buckets_stay_cumulative(buckets, count, ranks.drop_last());
        lemma_observed_keeps_well_formed(
            observed_all(buckets, ranks.drop_last()),
            (count + ranks.len() - 1) as u64,
            ranks.last(),
        );
    }
    let after = observed_all(buckets, ranks);
    assert forall|i: int| 0 <= i < after.len() - 1 implies (#[trigger] after[i]).1 <= after[i
        + 1].1 by {
        assert(after[i].1 <= after[i + 1].1);
    }
}

/// A histogram without values is as a histogram is: the buckets that are
/// made for bounds that are accepted ascend, and their counts of zero are
/// those of no value.
pub proof fn lemma_empty_buckets_are_well_formed(bounds: Seq<Bound>)
    requires
        accepted(bounds),
    ensures
        ascending(empty_buckets(completed(bounds))),
        cumulative(empty_buckets(completed(bounds)), 0),
{
    let all = completed(bounds);
    let buckets = empty_buckets(all);
    assert forall|i: int, j: int|
        #![trigger buckets[i], buckets[j]]
        0 <= i <= j < buckets.len() implies buckets[i].0.at_most(&buckets[j].0) by {
        if j < bounds.len() {
            assert(bounds[i].at_most(&bounds[j]));
        }
    }
    assert forall|i: int| 0 <= i < buckets.len() - 1 implies (#[trigger] buckets[i]).0
        is Finite by {
        if i < bounds.len() - 1 {
            assert(bounds[i] is Finite);
        }
    }
}

/// From its making on a histogram is as a histogram is: whatever values it
/// has counted since it was made for the bounds `bounds`, no bucket holds
/// more than the next, and the last bucket holds the number of values.
pub proof fn lemma_histogram_is_cumulative(bounds: Seq<Bound>, ranks: Seq<i64>)
    requires
        accepted(bounds),
        ranks.len() <= u64::MAX,
    ensures
        ({
            let after = observed_all(empty_buckets(completed(bounds)), ranks);
            &&& after.len() == completed(bounds).len()
            &&& forall|i: int|
                0 <= i < after.len() - 1 ==> (#[trigger] after[i]).1 <= after[i + 1].1
            &&& after.last().1 == ranks.len()
            &&& after.last().0 is Infinite
        }),
{
    lemma_empty_buckets_are_well_formed(bounds);
    lemma_buckets_stay_cumulative(empty_buckets(completed(bounds)), 0, ranks);
}

/// The suffix of the line that holds the sum: `sum`.
pub open spec fn sum_word() -> Seq<u8> {
    seq![115u8, 117u8, 109u8]
}

/// The suffix of the line that holds the number of values: `count`.
pub open spec fn count_word() -> Seq<u8> {
    seq![99u8, 111u8, 117u8, 110u8, 116u8]
}

/// The suffix of the line of a bucket: `bucket`.
pub open spec fn bucket_word() -> Seq<u8> {
    seq![98u8, 117u8, 99u8, 107u8, 101u8, 116u8]
}

/// The name of the label that holds the bound of a bucket: `le`.
pub open spec fn le_word() -> Seq<u8> {
    seq![108u8, 101u8]
}

/// The line of one bucket: the name with the suffix `bucket`, the labels of
/// the series with the label `le` for the bound behind them, and the count.
pub open spec fn bucket_line(bucket: (Bound, u64), name: Seq<u8>, labels: Option<Seq<u8>>) -> Seq<
    u8,
> {
    crate::encoding::sample_line(
        name,
        Some(bucket_word()),
        labels,
        Some((le_word(), bucket.0.label())),
        crate::encoding::decimal(bucket.1 as nat),
    )
}

/// The lines of `buckets`, in their order.
pub open spec fn bucket_lines(
    buckets: Seq<(Bound, u64)>,
    name: Seq<u8>,
    labels: Option<Seq<u8>>,
) -> Seq<u8>
    decreases buckets.len(),
{
    if buckets.len() == 0 {
        Seq::empty()
    } else {
        bucket_lines(buckets.drop_last(), name, labels) + bucket_line(buckets.last(), name, labels)
    }
}

/// The lines of the first `k` buckets are what the lines of all begin with,
/// and the line of the next bucket follows them.
pub proof fn lemma_bucket_lines_begin_with(
    buckets: Seq<(Bound, u64)>,
    name: Seq<u8>,
    labels: Option<Seq<u8>>,
    k: int,
)
    requires
        0 <= k <= buckets.len(),
    ensures
        bucket_lines(buckets.take(k), name, labels).is_prefix_of(
            bucket_lines(buckets, name, labels),
        ),
        k < buckets.len() ==> bucket_lines(buckets.take(k + 1), name, labels) == bucket_lines(
            buckets.take(k),
            name,
            labels,
        ) + bucket_line(buckets[k], name, labels),
    decreases buckets.len(),
{
    if k == buckets.len() {
        assert(buckets.take(k) =~= buckets);
    } else {
        lemma_bucket_lines_begin_with(buckets.drop_last(), name, labels, k);
        assert(buckets.drop_last().take(k) =~= buckets.take(k));
        assert(buckets.take(k + 1).drop_last() =~= buckets.take(k));
        assert(buckets.take(k + 1).last() == buckets[k]);
    }
}

/// The texts `sum`, `count`, `bucket` and `le` in bytes.
proof fn lemma_words()
    ensures
        "sum".spec_bytes() == sum_word(),
        "count".spec_bytes() == count_word(),
        "bucket".spec_bytes() == bucket_word(),
        "le".spec_bytes() == le_word(),
{
    reveal_strlit("sum");
    reveal_strlit("count");
    reveal_strlit("bucket");
    reveal_strlit("le");
    assert(is_ascii("sum") && is_ascii("count") && is_ascii("bucket") && is_ascii("le"));
    is_ascii_spec_bytes("sum");
    is_ascii_spec_bytes("count");
    is_ascii_spec_bytes("bucket");
    is_ascii_spec_bytes("le");
    assert("sum".spec_bytes() =~= sum_word());
    assert("count".spec_bytes() =~= count_word());
    assert("bucket".spec_bytes() =~= bucket_word());
    assert("le".spec_bytes() =~= le_word());
}

/// Writes the line `name_suffix[{labels}] value`.
fn encode_plain_line<'a, 'b, S: Encode, V: Encode>(
    encoder: &mut Encoder<'a, 'b, S>,
    suffix: &'static str,
    value: V,
) -> (r: Result<(), OutputError>)
    ensures
        final(encoder).name == old(encoder).name,
        final(encoder).labels == old(encoder).labels,
        *final(final(encoder).writer) == *final(old(encoder).writer),
        Output::delivers(
            *old(encoder).writer,
            *final(encoder).writer,
            crate::encoding::sample_line(
                old(encoder).name.spec_bytes(),
                Some(suffix.spec_bytes()),
                old(encoder).label_bytes(),
                None,
                value.encoding(),
            ),
            r is Ok,
        ),
{
    let ghost begin = *encoder.writer;
    let ghost head = crate::encoding::line_head(
        encoder.name.spec_bytes(),
        Some(suffix.spec_bytes()),
        encoder.label_bytes(),
    );
    let ghost close = crate::encoding::labels_close(
        crate::encoding::labelled(encoder.label_bytes()),
        None,
    );
    let ghost last = crate::encoding::value_part(value.encoding());
    let ghost line = head + close + last;
    proof {
        Output::lemma_delivers_nothing(begin);
        Output::lemma_delivers_after(begin, begin, Seq::empty(), head, line);
        assert(Seq::<u8>::empty() + head =~= head);
    }
    let labels = match encoder.encode_suffix(suffix) {
        Ok(next) => next,
        Err(e) => {
            return Err(e);
        },
    };
    proof {
        Output::lemma_delivers_after(begin, *labels.writer, head, close, line);
    }
    let end = match labels.no_bucket() {
        Ok(next) => next,
        Err(e) => {
            return Err(e);
        },
    };
    proof {
        Output::lemma_delivers_after(begin, *end.writer, head + close, last, line);
    }
    end.encode_value(value)
}

/// Writes the line `name_suffix{[labels,]key="bound"} value`.
fn encode_bucket_line<'a, 'b, S: Encode, V: Encode>(
    encoder: &mut Encoder<'a, 'b, S>,
    suffix: &'static str,
    key: &'static str,
    bound: &str,
    value: V,
) -> (r: Result<(), OutputError>)
    ensures
        final(encoder).name == old(encoder).name,
        final(encoder).labels == old(encoder).labels,
        *final(final(encoder).writer) == *final(old(encoder).writer),
        Output::delivers(
            *old(encoder).writer,
            *final(encoder).writer,
            crate::encoding::sample_line(
                old(encoder).name.spec_bytes(),
                Some(suffix.spec_bytes()),
                old(encoder).label_bytes(),
                Some((key.spec_bytes(), bound.spec_bytes())),
                value.encoding(),
            ),
            r is Ok,
        ),
{
    let ghost begin = *encoder.writer;
    let ghost head = crate::encoding::line_head(
        encoder.name.spec_bytes(),
        Some(suffix.spec_bytes()),
        encoder.label_bytes(),
    );
    let ghost close = crate::encoding::labels_close(
        crate::encoding::labelled(encoder.label_bytes()),
        Some((key.spec_bytes(), bound.spec_bytes())),
    );
    let ghost last = crate::encoding::value_part(value.encoding());
    let ghost line = head + close + last;
    proof {
        Output::lemma_delivers_nothing(begin);
        Output::lemma_delivers_after(begin, begin, Seq::empty(), head, line);
        assert(Seq::<u8>::empty() + head =~= head);
    }
    let labels = match encoder.encode_suffix(suffix) {
        Ok(next) => next,
        Err(e) => {
            return Err(e);
        },
    };
    proof {
        Output::lemma_delivers_after(begin, *labels.writer, head, close, line);
    }
    let end = match labels.encode_bucket(key, bound) {
        Ok(next) => next,
        Err(e) => {
            return Err(e);
        },
    };
    proof {
        Output::lemma_delivers_after(begin, *end.writer, head + close, last, line);
    }
    end.encode_value(value)
}

/// A histogram is a line for the sum, a line for the number of values and a
/// line for each bucket, in ascending order of the bounds.
impl EncodeMetric for Histogram {
    open spec fn samples(&self, name: Seq<u8>, labels: Option<Seq<u8>>) -> Seq<u8> {
        crate::encoding::sample_line(name, Some(sum_word()), labels, None, self.sum_bytes())
            + crate::encoding::sample_line(
            name,
            Some(count_word()),
            labels,
            None,
            crate::encoding::decimal(self.total() as nat),
        ) + bucket_lines(self@, name, labels)
    }

    open spec fn fits(&self, labelled: bool) -> bool {
        true
    }

    fn encode<'a, 'b, L: Encode>(&self, encoder: Encoder<'a, 'b, L>) -> (r: Result<
        (),
        OutputError,
    >) {
        let mut series = encoder;
        let ghost begin = *series.writer;
        let ghost name = series.name.spec_bytes();
        let ghost labels = series.label_bytes();
        let ghost sum = crate::encoding::sample_line(
            name,
            Some(sum_word()),
            labels,
            None,
            self.sum_bytes(),
        );
        let ghost count = crate::encoding::sample_line(
            name,
            Some(count_word()),
            labels,
            None,
            crate::encoding::decimal(self.total() as nat),
        );
        let ghost all = self.samples(name, labels);
        proof {
            lemma_words();
            Output::lemma_delivers_nothing(begin);
            Output::lemma_delivers_after(begin, begin, Seq::empty(), sum, all);
            assert(Seq::<u8>::empty() + sum =~= sum);
        }
        if encode_plain_line(&mut series, "sum", self.sum.text.as_str()).is_err() {
            return Err(OutputError);
        }
        proof {
            Output::lemma_delivers_after(begin, *series.writer, sum, count, all);
        }
        if encode_plain_line(&mut series, "count", self.count()).is_err() {
            return Err(OutputError);
        }
        let mut i: usize = 0;
        proof {
            assert(self@.take(0) =~= Seq::empty());
            assert(sum + count + bucket_lines(self@.take(0), name, labels) =~= sum + count);
        }
        while i < self.buckets.len()
            invariant
                i <= self.buckets@.len(),
                begin == *old(encoder.writer),
                name == series.name.spec_bytes(),
                labels == series.label_bytes(),
                series.name == encoder.name,
                series.labels == encoder.labels,
                *final(series.writer) == *final(encoder.writer),
                all == sum + count + bucket_lines(self@, name, labels),
                all == self.samples(name, labels),
                "bucket".spec_bytes() == bucket_word(),
                "le".spec_bytes() == le_word(),
                Output::delivers(
                    begin,
                    *series.writer,
                    sum + count + bucket_lines(self@.take(i as int), name, labels),
                    true,
                ),
            decreases self.buckets@.len() - i,
        {
            let bound = &self.buckets[i].0;
            let bucket_count = self.buckets[i].1;
            proof {
                let done = bucket_lines(self@.take(i as int), name, labels);
                let line = bucket_line(self@[i as int], name, labels);
                assert(line == crate::encoding::sample_line(
                    name,
                    Some("bucket".spec_bytes()),
                    labels,
                    Some(("le".spec_bytes(), bound.label())),
                    bucket_count.encoding(),
                ));
                lemma_bucket_lines_begin_with(self@, name, labels, i as int);
                lemma_bucket_lines_begin_with(self@, name, labels, i + 1);
                assert((sum + count + done) + line =~= sum + count + bucket_lines(
                    self@.take(i + 1),
                    name,
                    labels,
                ));
                assert((sum + count + bucket_lines(self@.take(i + 1), name, labels)).is_prefix_of(
                    all,
                ));
                Output::lemma_delivers_after(begin, *series.writer, sum + count + done, line, all);
            }
            let written = encode_bucket_line(
                &mut series,
                "bucket",
                "le",
                bound.as_str(),
                bucket_count,
            );
            if written.is_err() {
                return Err(OutputError);
            }
            i = i + 1;
        }
        proof {
            assert(self@.take(i as int) =~= self@);
        }
        Ok(())
    }
}

} // verus!
