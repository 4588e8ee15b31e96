//! Families: the series of one metric, told apart by their labels.

use crate::encoding::{Encode, EncodeMetric, Encoder};
use crate::label::{LabelSet, Labels};
use crate::output::{Output, OutputError};
use vstd::prelude::*;
use vstd::string::*;

verus! {

/// The series of one metric, each with a label set of its own. A series comes
/// into being when its labels are first asked for, and there is never more
/// than one series with the same labels.
#[derive(Clone, Debug)]
pub struct MetricFamily<S, M> {
    entries: Vec<(S, M)>,
}

/// Where in `entries` the first series with the labels `key` stands, if there
/// is one.
pub open spec fn position_of<M>(entries: Seq<(Labels, M)>, key: Labels) -> Option<int>
    decreases entries.len(),
{
    if entries.len() == 0 {
        None
    } else {
        match position_of(entries.drop_last(), key) {
            Some(i) => Some(i),
            None => if entries.last().0 == key {
                Some(entries.len() - 1)
            } else {
                None
            },
        }
    }
}

/// Whether no two series of `entries` have the same labels.
pub open spec fn labels_differ<M>(entries: Seq<(Labels, M)>) -> bool {
    forall|i: int, j: int| 0 <= i < j < entries.len() ==> entries[i].0 != entries[j].0
}

/// Whether every series of `entries` has labels in which no name occurs twice.
pub open spec fn names_differ_in_each<M>(entries: Seq<(Labels, M)>) -> bool {
    forall|i: int|
        0 <= i < entries.len() ==> crate::label::names_differ((#[trigger] entries[i]).0)
}

/// The series `entries` once the series with the labels `key` holds `metric`:
/// in its place where there is such a series, and else behind all others.
pub open spec fn with_series<M>(entries: Seq<(Labels, M)>, key: Labels, metric: M) -> Seq<
    (Labels, M),
> {
    match position_of(entries, key) {
        Some(i) => entries.update(i, (key, metric)),
        None => entries.push((key, metric)),
    }
}

/// What `position_of` finds: the first place at which the labels stand, and
/// nothing where they stand nowhere.
pub proof fn lemma_position_of<M>(entries: Seq<(Labels, M)>, key: Labels)
    ensures
        match position_of(entries, key) {
            Some(i) => {
                &&& 0 <= i < entries.len()
                &&& entries[i].0 == key
                &&& forall|j: int| 0 <= j < i ==> entries[j].0 != key
            },
            None => forall|j: int| 0 <= j < entries.len() ==> entries[j].0 != key,
        },
    decreases entries.len(),
{
    if entries.len() > 0 {
        lemma_position_of(entries.drop_last(), key);
        assert(forall|j: int|
            0 <= j < entries.len() - 1 ==> entries.drop_last()[j] == #[trigger] entries[j]);
    }
}

impl<S: LabelSet, M> View for MetricFamily<S, M> {
    type V = Seq<(Labels, M)>;

    /// The series in the order in which they came into being, each as its
    /// labels and its metric.
    closed spec fn view(&self) -> Seq<(Labels, M)> {
        series_of(self.entries@)
    }
}

/// The series that `entries` hold, each as its labels and its metric.
spec fn series_of<S: LabelSet, M>(entries: Seq<(S, M)>) -> Seq<(Labels, M)> {
    Seq::new(entries.len(), |i: int| (entries[i].0.pairs(), entries[i].1))
}

/// The series of `entries` once the metric at `i` has changed, whatever it
/// has changed to.
proof fn lemma_series_of_update<S: LabelSet, M>(entries: Seq<(S, M)>, i: int)
    requires
        0 <= i < entries.len(),
    ensures
        forall|m: M| #[trigger]
            series_of(entries.update(i, (entries[i].0, m))) == series_of(entries).update(
                i,
                (entries[i].0.pairs(), m),
            ),
{
    assert forall|m: M| #[trigger]
        series_of(entries.update(i, (entries[i].0, m))) == series_of(entries).update(
            i,
            (entries[i].0.pairs(), m),
        ) by {
        assert(series_of(entries.update(i, (entries[i].0, m))) =~= series_of(entries).update(
            i,
            (entries[i].0.pairs(), m),
        ));
    }
}

impl<S: LabelSet, M: Default> MetricFamily<S, M> {
    /// Whether the family is as every family is that was made by `new` and
    /// changed by `get_or_create`: no two of its series have the same labels,
    /// and no name occurs twice in the labels of a series.
    pub open spec fn wf(&self) -> bool {
        &&& labels_differ(self@)
        &&& names_differ_in_each(self@)
    }

    /// A family without series.
    pub fn new() -> (family: Self)
        ensures
            family@ == Seq::<(Labels, M)>::empty(),
            family.wf(),
    {
        let family = MetricFamily { entries: Vec::new() };
        assert(family@ =~= Seq::<(Labels, M)>::empty());
        family
    }

    /// The number of series.
    pub fn len(&self) -> (n: usize)
        ensures
            n == self@.len(),
    {
        self.entries.len()
    }

    /// Where the series with the labels `label_set` stands, if there is one.
    pub fn position(&self, label_set: &S) -> (at: Option<usize>)
        ensures
            match at {
                Some(i) => position_of(self@, label_set.pairs()) == Some(i as int),
                None => position_of(self@, label_set.pairs()) is None,
            },
    {
        let ghost key = label_set.pairs();
        let mut i: usize = 0;
        proof {
            assert(self@.take(0) =~= Seq::empty());
        }
        while i < self.entries.len()
            invariant
                i <= self.entries@.len(),
                key == label_set.pairs(),
                position_of(self@.take(i as int), key) is None,
            decreases self.entries@.len() - i,
        {
            proof {
                assert(self@.take(i + 1).drop_last() =~= self@.take(i as int));
                assert(self@.take(i + 1).last() == self@[i as int]);
            }
            if self.entries[i].0.same_as(label_set) {
                proof {
                    lemma_position_of(self@, key);
                    lemma_position_of(self@.take(i as int), key);
                    assert(forall|j: int| 0 <= j < i ==> self@.take(i as int)[j] == self@[j]);
                }
                return Some(i);
            }
            i = i + 1;
        }
        proof {
            assert(self@.take(i as int) =~= self@);
        }
        None
    }

    /// The series that came into being as number `i`, counted from zero: its
    /// labels and its metric.
    pub fn series(&self, i: usize) -> (series: (&S, &M))
        requires
            i < self@.len(),
        ensures
            series.0.pairs() == self@[i as int].0,
            *series.1 == self@[i as int].1,
    {
        (&self.entries[i].0, &self.entries[i].1)
    }

    /// The series with the labels `label_set`, to be changed in its place.
    /// Where the family has none yet, one is made with a metric in its first
    /// state, behind all others. No name occurs twice in `label_set`.
    pub fn get_or_create(&mut self, label_set: &S) -> (metric: &mut M)
        requires
            crate::label::names_differ(label_set.pairs()),
        ensures
            old(self).wf() ==> final(self).wf(),
            final(self)@ == with_series(old(self)@, label_set.pairs(), *final(metric)),
            match position_of(old(self)@, label_set.pairs()) {
                Some(i) => *metric == old(self)@[i].1,
                None => call_ensures(M::default, (), *metric),
            },
    {
        proof {
            lemma_position_of(self@, label_set.pairs());
        }
        match self.position(label_set) {
            Some(i) => {
                proof {
                    lemma_series_of_update(self.entries@, i as int);
                }
                &mut self.entries[i].1
            },
            None => {
                let n = self.entries.len();
                self.entries.push((label_set.duplicate(), M::default()));
                proof {
                    lemma_series_of_update(self.entries@, n as int);
                    assert(series_of(self.entries@) =~= old(self)@.push(
                        (label_set.pairs(), self.entries@[n as int].1),
                    ));
                    assert forall|m: M|
                        (#[trigger] series_of(self.entries@).update(
                            n as int,
                            (label_set.pairs(), m),
                        )) == old(self)@.push((label_set.pairs(), m)) by {
                        assert(series_of(self.entries@).update(n as int, (label_set.pairs(), m))
                            =~= old(self)@.push((label_set.pairs(), m)));
                    }
                }
                &mut self.entries[n].1
            },
        }
    }
}

/// A family has one series for one label set, however often it is asked
/// for: once the series with the labels `key` holds `metric`, it is found at
/// one place, which is where it was found before if it was there; no other
/// series has moved or changed; and to ask for it again changes nothing but
/// what it holds.
pub proof fn lemma_one_series_per_label_set<M>(
    entries: Seq<(Labels, M)>,
    key: Labels,
    metric: M,
    later: M,
)
    requires
        labels_differ(entries),
    ensures
        ({
            let after = with_series(entries, key, metric);
            let place = match position_of(entries, key) {
                Some(i) => i,
                None => entries.len() as int,
            };
            &&& labels_differ(after)
            &&& position_of(after, key) == Some(place)
            &&& after[place] == (key, metric)
            &&& forall|j: int| 0 <= j < after.len() && after[j].0 == key ==> j == place
            &&& forall|j: int| 0 <= j < entries.len() && j != place ==> after[j] == entries[j]
            &&& with_series(after, key, later) == after.update(place, (key, later))
        }),
{
    let after = with_series(entries, key, metric);
    let place = match position_of(entries, key) {
        Some(i) => i,
        None => entries.len() as int,
    };
    lemma_position_of(entries, key);
    lemma_position_of(after, key);
    assert(after[place] == (key, metric));
    assert forall|i: int, j: int| 0 <= i < j < after.len() implies after[i].0 != after[j].0 by {
        if i != place && j != place {
            assert(after[i] == entries[i] && after[j] == entries[j]);
        } else if i == place && j < entries.len() {
            assert(after[j] == entries[j]);
            assert(entries[i].0 == key);
        } else if j == place && i < entries.len() {
            assert(after[i] == entries[i]);
        }
    }
    assert(position_of(after, key) == Some(place));
}

/// The sample lines of the series of `entries` for the metric `name`: those
/// of each series under its own labels, in the order of `entries`.
pub open spec fn family_samples<M: EncodeMetric>(entries: Seq<(Labels, M)>, name: Seq<u8>) -> Seq<
    u8,
>
    decreases entries.len(),
{
    if entries.len() == 0 {
        Seq::empty()
    } else {
        family_samples(entries.drop_last(), name) + entries.last().1.samples(
            name,
            Some(crate::label::label_list(entries.last().0)),
        )
    }
}

/// The samples of the first `k` series are what the samples of all begin
/// with, and those of the next series follow them.
pub proof fn lemma_family_samples_begin_with<M: EncodeMetric>(
    entries: Seq<(Labels, M)>,
    name: Seq<u8>,
    k: int,
)
    requires
        0 <= k <= entries.len(),
    ensures
        family_samples(entries.take(k), name).is_prefix_of(family_samples(entries, name)),
        k < entries.len() ==> family_samples(entries.take(k + 1), name) == family_samples(
            entries.take(k),
            name,
        ) + entries[k].1.samples(name, Some(crate::label::label_list(entries[k].0))),
    decreases entries.len(),
{
    if k == entries.len() {
        assert(entries.take(k) =~= entries);
    } else {
        lemma_family_samples_begin_with(entries.drop_last(), name, k);
        assert(entries.drop_last().take(k) =~= entries.take(k));
        assert(entries.take(k + 1).drop_last() =~= entries.take(k));
        assert(entries.take(k + 1).last() == entries[k]);
    }
}

/// A family is the lines of its series, each series under its own labels. It
/// takes no labels from outside, and each of its members must take some.
impl<S: LabelSet, M: EncodeMetric> EncodeMetric for MetricFamily<S, M> {
    open spec fn samples(&self, name: Seq<u8>, labels: Option<Seq<u8>>) -> Seq<u8> {
        family_samples(self@, name)
    }

    open spec fn fits(&self, labelled: bool) -> bool {
        &&& !labelled
        &&& forall|i: int| 0 <= i < self@.len() ==> (#[trigger] self@[i]).1.fits(true)
    }

    fn encode<'a, 'b, L: Encode>(&self, encoder: Encoder<'a, 'b, L>) -> (r: Result<
        (),
        OutputError,
    >) {
        let mut family = encoder;
        let ghost begin = *family.writer;
        let ghost name = family.name.spec_bytes();
        let ghost all = family_samples(self@, name);
        let mut i: usize = 0;
        proof {
            Output::lemma_delivers_nothing(begin);
            assert(self@.take(0) =~= Seq::empty());
        }
        while i < self.entries.len()
            invariant
                i <= self.entries@.len(),
                self@.len() == self.entries@.len(),
                begin == *old(encoder.writer),
                name == family.name.spec_bytes(),
                family.name == encoder.name,
                family.labels is None,
                *final(family.writer) == *final(encoder.writer),
                all == family_samples(self@, name),
                self.fits(false),
                Output::delivers(
                    begin,
                    *family.writer,
                    family_samples(self@.take(i as int), name),
                    true,
                ),
            decreases self.entries@.len() - i,
        {
            let labels = &self.entries[i].0;
            let metric = &self.entries[i].1;
            proof {
                labels.lemma_encoding();
                lemma_family_samples_begin_with(self@, name, i as int);
                lemma_family_samples_begin_with(self@, name, i + 1);
                assert(self@[i as int].1 == *metric);
                assert(self@[i as int].0 == labels.pairs());
                Output::lemma_delivers_after(
                    begin,
                    *family.writer,
                    family_samples(self@.take(i as int), name),
                    metric.samples(name, Some(labels.encoding())),
                    all,
                );
            }
            let series = family.with_label_set(labels);
            if metric.encode(series).is_err() {
                return Err(OutputError);
            }
            i = i + 1;
        }
        proof {
            assert(self@.take(i as int) =~= self@);
        }
        Ok(())
    }
}

} // verus!
