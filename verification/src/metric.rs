//! The kinds of metric that this library has, as one type: what a registry
//! holds that is to hold metrics of more than one kind.

use crate::counter::Counter;
use crate::encoding::{Encode, EncodeMetric, Encoder};
use crate::family::MetricFamily;
use crate::histogram::Histogram;
use crate::label::LabelSet;
use crate::output::OutputError;
use vstd::prelude::*;

verus! {

/// A metric of one of the kinds of this library: a counter, a histogram, or a
/// family of either whose series are told apart by label sets of the type
/// `S`.
#[derive(Clone, Debug)]
pub enum Metric<S> {
    Counter(Counter),
    Histogram(Histogram),
    CounterFamily(MetricFamily<S, Counter>),
    HistogramFamily(MetricFamily<S, Histogram>),
}

/// A metric writes the lines of the counter, histogram or family that it is.
/// A counter and a histogram take labels from outside, a family does not.
impl<S: LabelSet> EncodeMetric for Metric<S> {
    open spec fn samples(&self, name: Seq<u8>, labels: Option<Seq<u8>>) -> Seq<u8> {
        match self {
            Metric::Counter(counter) => counter.samples(name, labels),
            Metric::Histogram(histogram) => histogram.samples(name, labels),
            Metric::CounterFamily(family) => family.samples(name, labels),
            Metric::HistogramFamily(family) => family.samples(name, labels),
        }
    }

    open spec fn fits(&self, labelled: bool) -> bool {
        match self {
            Metric::Counter(counter) => counter.fits(labelled),
            Metric::Histogram(histogram) => histogram.fits(labelled),
            Metric::CounterFamily(family) => family.fits(labelled),
            Metric::HistogramFamily(family) => family.fits(labelled),
        }
    }

    fn encode<'a, 'b, L: Encode>(&self, encoder: Encoder<'a, 'b, L>) -> (r: Result<
        (),
        OutputError,
    >) {
        match self {
            Metric::Counter(counter) => counter.encode(encoder),
            Metric::Histogram(histogram) => histogram.encode(encoder),
            Metric::CounterFamily(family) => family.encode(encoder),
            Metric::HistogramFamily(family) => family.encode(encoder),
        }
    }
}

/// Every metric of these kinds can stand in a registry: it can be written as
/// a series without labels from outside.
pub proof fn lemma_metric_fits_a_registry<S: LabelSet>(metric: Metric<S>)
    ensures
        metric.fits(false),
{
}

} // verus!
