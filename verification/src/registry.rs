//! What a program has registered: metrics in the order of their registration,
//! each with the name, help and kind that a document states of it.

use vstd::prelude::*;
use vstd::string::*;

verus! {

/// The kind of a metric, as the `# TYPE` line of a document states it.
#[derive(Debug, Clone, Copy, PartialEq, Eq)]
pub enum MetricType {
    Counter,
    Gauge,
    Histogram,
    GaugeHistogram,
    Summary,
    Info,
    StateSet,
    Unknown,
}

impl MetricType {
    /// The word that stands for the kind in a document.
    pub open spec fn word(&self) -> Seq<u8> {
        match self {
            MetricType::Counter => seq![99u8, 111u8, 117u8, 110u8, 116u8, 101u8, 114u8],
            MetricType::Gauge => seq![103u8, 97u8, 117u8, 103u8, 101u8],
            MetricType::Histogram => seq![
                104u8,
                105u8,
                115u8,
                116u8,
                111u8,
                103u8,
                114u8,
                97u8,
                109u8,
            ],
            MetricType::GaugeHistogram => seq![
                103u8,
                97u8,
                117u8,
                103u8,
                101u8,
                104u8,
                105u8,
                115u8,
                116u8,
                111u8,
                103u8,
                114u8,
                97u8,
                109u8,
            ],
            MetricType::Summary => seq![115u8, 117u8, 109u8, 109u8, 97u8, 114u8, 121u8],
            MetricType::Info => seq![105u8, 110u8, 102u8, 111u8],
            MetricType::StateSet => seq![
                115u8,
                116u8,
                97u8,
                116u8,
                101u8,
                115u8,
                101u8,
                116u8,
            ],
            MetricType::Unknown => seq![117u8, 110u8, 107u8, 110u8, 111u8, 119u8, 110u8],
        }
    }

    /// The word that stands for the kind in a document: `counter`, `gauge`,
    /// `histogram`, `gaugehistogram`, `summary`, `info`, `stateset` or
    /// `unknown`.
    pub fn as_str(&self) -> (word: &'static str)
        ensures
            word.spec_bytes() == self.word(),
    {
        match self {
            MetricType::Counter => {
                proof {
                    reveal_strlit("counter");
                    assert(is_ascii("counter"));
                    is_ascii_spec_bytes("counter");
                    assert("counter".spec_bytes() =~= self.word());
                }
                "counter"
            },
            MetricType::Gauge => {
                proof {
                    reveal_strlit("gauge");
                    assert(is_ascii("gauge"));
                    is_ascii_spec_bytes("gauge");
                    assert("gauge".spec_bytes() =~= self.word());
                }
                "gauge"
            },
            MetricType::Histogram => {
                proof {
                    reveal_strlit("histogram");
                    assert(is_ascii("histogram"));
                    is_ascii_spec_bytes("histogram");
                    assert("histogram".spec_bytes() =~= self.word());
                }
                "histogram"
            },
            MetricType::GaugeHistogram => {
                proof {
                    reveal_strlit("gaugehistogram");
                    assert(is_ascii("gaugehistogram"));
                    is_ascii_spec_bytes("gaugehistogram");
                    assert("gaugehistogram".spec_bytes() =~= self.word());
                }
                "gaugehistogram"
            },
            MetricType::Summary => {
                proof {
                    reveal_strlit("summary");
                    assert(is_ascii("summary"));
                    is_ascii_spec_bytes("summary");
                    assert("summary".spec_bytes() =~= self.word());
                }
                "summary"
            },
            MetricType::Info => {
                proof {
                    reveal_strlit("info");
                    assert(is_ascii("info"));
                    is_ascii_spec_bytes("info");
                    assert("info".spec_bytes() =~= self.word());
                }
                "info"
            },
            MetricType::StateSet => {
                proof {
                    reveal_strlit("stateset");
                    assert(is_ascii("stateset"));
                    is_ascii_spec_bytes("stateset");
                    assert("stateset".spec_bytes() =~= self.word());
                }
                "stateset"
            },
            MetricType::Unknown => {
                proof {
                    reveal_strlit("unknown");
                    assert(is_ascii("unknown"));
                    is_ascii_spec_bytes("unknown");
                    assert("unknown".spec_bytes() =~= self.word());
                }
                "unknown"
            },
        }
    }
}

/// What a document states of a metric besides its samples: its name, a
/// sentence for its readers and its kind. None of them changes once the
/// descriptor is made.
#[derive(Clone, Debug)]
pub struct Descriptor {
    name: String,
    help: String,
    metric_type: MetricType,
}

impl Descriptor {
    /// The name of the metric, in UTF-8.
    pub closed spec fn name_bytes(&self) -> Seq<u8> {
        vstd::utf8::encode_utf8(self.name@)
    }

    /// The help text of the metric, in UTF-8.
    pub closed spec fn help_bytes(&self) -> Seq<u8> {
        vstd::utf8::encode_utf8(self.help@)
    }

    /// The kind of the metric.
    pub closed spec fn kind(&self) -> MetricType {
        self.metric_type
    }

    /// The descriptor of a metric of the kind `metric_type` that is called
    /// `name` and explained by `help`. Neither text is examined: that the name
    /// is an identifier and that the help holds no line feed is for the
    /// caller to see to.
    pub fn new(metric_type: MetricType, help: &str, name: &str) -> (descriptor: Descriptor)
        ensures
            descriptor.name_bytes() == name.spec_bytes(),
            descriptor.help_bytes() == help.spec_bytes(),
            descriptor.kind() == metric_type,
    {
        Descriptor { name: name.to_owned(), help: help.to_owned(), metric_type }
    }

    /// The name of the metric.
    pub fn name(&self) -> (name: &str)
        ensures
            name.spec_bytes() == self.name_bytes(),
    {
        self.name.as_str()
    }

    /// The help text of the metric.
    pub fn help(&self) -> (help: &str)
        ensures
            help.spec_bytes() == self.help_bytes(),
    {
        self.help.as_str()
    }

    /// The kind of the metric.
    pub fn m_type(&self) -> (metric_type: MetricType)
        ensures
            metric_type == self.kind(),
    {
        self.metric_type
    }
}

/// The metrics of a program, each with its descriptor, in the order in which
/// they were registered. A document lists them in that order.
#[derive(Clone, Debug)]
pub struct Registry<M> {
    entries: Vec<(Descriptor, M)>,
}

impl<M> View for Registry<M> {
    type V = Seq<(Descriptor, M)>;

    /// The registered metrics, first registered first.
    closed spec fn view(&self) -> Seq<(Descriptor, M)> {
        self.entries@
    }
}

impl<M> Registry<M> {
    /// A registry without metrics.
    pub fn new() -> (registry: Registry<M>)
        ensures
            registry@ == Seq::<(Descriptor, M)>::empty(),
    {
        Registry { entries: Vec::new() }
    }

    /// Registers `metric` under `descriptor`, behind all that are registered.
    pub fn register(&mut self, descriptor: Descriptor, metric: M)
        ensures
            final(self)@ == old(self)@.push((descriptor, metric)),
    {
        self.entries.push((descriptor, metric));
    }

    /// The number of registered metrics.
    pub fn len(&self) -> (n: usize)
        ensures
            n == self@.len(),
    {
        self.entries.len()
    }

    /// The descriptor of the metric that was registered as number `i`,
    /// counted from zero.
    pub fn descriptor(&self, i: usize) -> (descriptor: &Descriptor)
        requires
            i < self@.len(),
        ensures
            *descriptor == self@[i as int].0,
    {
        &self.entries[i].0
    }

    /// The metric that was registered as number `i`, counted from zero, to
    /// be changed in its place.
    pub fn metric_mut(&mut self, i: usize) -> (metric: &mut M)
        requires
            i < old(self)@.len(),
        ensures
            *metric == old(self)@[i as int].1,
            final(self)@ == old(self)@.update(i as int, (old(self)@[i as int].0, *final(metric))),
    {
        &mut self.entries[i].1
    }

    /// The metric that was registered as number `i`, counted from zero.
    pub fn metric(&self, i: usize) -> (metric: &M)
        requires
            i < self@.len(),
        ensures
            *metric == self@[i as int].1,
    {
        &self.entries[i].1
    }
}

} // verus!
