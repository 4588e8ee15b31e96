use open_metrics_client::counter::Counter;
use open_metrics_client::encoding::encode;
use open_metrics_client::family::MetricFamily;
use open_metrics_client::histogram::Histogram;
use open_metrics_client::metric::Metric;
use open_metrics_client::number::{Bound, Number};
use open_metrics_client::output::{Output, OutputError};
use open_metrics_client::registry::{Descriptor, MetricType, Registry};

fn number(x: f64) -> Number {
    Number::new(x.to_bits(), &x.to_string())
}

fn bounds(limits: &[f64]) -> Vec<Bound> {
    limits.iter().map(|limit| Bound::of(number(*limit))).collect()
}

fn text(encoded: Output) -> String {
    String::from_utf8(encoded.into_bytes()).unwrap()
}

#[test]
fn encode_counter() {
    let mut registry = Registry::new();
    let counter = Counter::new();
    registry.register(
        Descriptor::new(MetricType::Counter, "My counter", "my_counter"),
        counter,
    );

    let mut encoded = Output::new();

    encode(&mut encoded, &registry).unwrap();

    assert_eq!(
        text(encoded),
        "# HELP my_counter My counter\n\
         # TYPE my_counter counter\n\
         my_counter_total 0\n\
         # EOF\n"
    );
}

#[test]
fn encode_counter_family() {
    let mut registry = Registry::new();
    let family = MetricFamily::<Vec<(String, String)>, Counter>::new();
    registry.register(
        Descriptor::new(MetricType::Counter, "My counter family", "my_counter_family"),
        family,
    );

    registry
        .metric_mut(0)
        .get_or_create(&vec![("method".to_string(), "GET".to_string())])
        .increment();

    let mut encoded = Output::new();

    encode(&mut encoded, &registry).unwrap();

    assert_eq!(
        text(encoded),
        "# HELP my_counter_family My counter family\n\
         # TYPE my_counter_family counter\n\
         my_counter_family_total{method=\"GET\"} 1\n\
         # EOF\n"
    );
}

#[test]
fn encode_histogram() {
    let mut registry = Registry::new();
    let histogram =
        Histogram::new(bounds(&[1.0, 2.0, 3.0, 4.0, 5.0, 6.0, 7.0, 8.0, 9.0, 10.0])).unwrap();
    registry.register(
        Descriptor::new(MetricType::Histogram, "My histogram", "my_histogram"),
        histogram,
    );
    let mut sum = 0.0;
    sum += 1.0;
    registry.metric_mut(0).observe(&number(1.0), number(sum));

    let mut encoded = Output::new();

    encode(&mut encoded, &registry).unwrap();

    assert_eq!(
        text(encoded),
        "# HELP my_histogram My histogram\n\
         # TYPE my_histogram histogram\n\
         my_histogram_sum 1\n\
         my_histogram_count 1\n\
         my_histogram_bucket{le=\"1\"} 1\n\
         my_histogram_bucket{le=\"2\"} 1\n\
         my_histogram_bucket{le=\"3\"} 1\n\
         my_histogram_bucket{le=\"4\"} 1\n\
         my_histogram_bucket{le=\"5\"} 1\n\
         my_histogram_bucket{le=\"6\"} 1\n\
         my_histogram_bucket{le=\"7\"} 1\n\
         my_histogram_bucket{le=\"8\"} 1\n\
         my_histogram_bucket{le=\"9\"} 1\n\
         my_histogram_bucket{le=\"10\"} 1\n\
         my_histogram_bucket{le=\"+Inf\"} 1\n\
         # EOF\n"
    );
}

#[test]
fn counter_of_five_is_one_line_without_labels() {
    let mut registry = Registry::new();
    let mut counter = Counter::new();
    counter.increment_by(5);
    registry.register(
        Descriptor::new(MetricType::Counter, "count of requests", "requests"),
        counter,
    );

    let mut encoded = Output::new();
    encode(&mut encoded, &registry).unwrap();

    assert_eq!(
        text(encoded),
        "# HELP requests count of requests\n\
         # TYPE requests counter\n\
         requests_total 5\n\
         # EOF\n"
    );
}

#[test]
fn family_member_bears_the_labels_of_its_series() {
    let mut registry = Registry::new();
    let mut family = MetricFamily::<Vec<(String, String)>, Counter>::new();
    family
        .get_or_create(&vec![("method".to_string(), "GET".to_string())])
        .increment();
    registry.register(
        Descriptor::new(MetricType::Counter, "count of requests", "requests"),
        family,
    );

    let mut encoded = Output::new();
    encode(&mut encoded, &registry).unwrap();

    assert_eq!(
        text(encoded),
        "# HELP requests count of requests\n\
         # TYPE requests counter\n\
         requests_total{method=\"GET\"} 1\n\
         # EOF\n"
    );
}

#[test]
fn histogram_ends_with_the_bucket_without_bound() {
    let mut registry = Registry::new();
    let mut histogram = Histogram::new(bounds(&[1.0, 2.0])).unwrap();
    let mut sum = 0.0;
    sum += 1.5;
    histogram.observe(&number(1.5), number(sum));
    registry.register(
        Descriptor::new(MetricType::Histogram, "time taken", "latency"),
        histogram,
    );

    let mut encoded = Output::new();
    encode(&mut encoded, &registry).unwrap();

    assert_eq!(
        text(encoded),
        "# HELP latency time taken\n\
         # TYPE latency histogram\n\
         latency_sum 1.5\n\
         latency_count 1\n\
         latency_bucket{le=\"1\"} 0\n\
         latency_bucket{le=\"2\"} 1\n\
         latency_bucket{le=\"+Inf\"} 1\n\
         # EOF\n"
    );
}

#[test]
fn empty_registry_is_the_end_line_alone() {
    let registry = Registry::<Counter>::new();
    let mut encoded = Output::new();
    assert_eq!(encode(&mut encoded, &registry), Ok(()));
    assert_eq!(encoded.as_bytes(), b"# EOF\n");
}

#[test]
fn metrics_stand_in_the_order_of_registration() {
    let mut registry = Registry::new();
    let mut first = Counter::new();
    first.increment_by(3);
    let mut second = Counter::new();
    second.increment_by(4);
    registry.register(Descriptor::new(MetricType::Counter, "the first", "zulu"), first);
    registry.register(Descriptor::new(MetricType::Unknown, "the second", "alpha"), second);
    assert_eq!(registry.len(), 2);
    assert_eq!(registry.descriptor(0).name(), "zulu");
    assert_eq!(registry.descriptor(1).help(), "the second");
    assert_eq!(registry.descriptor(1).m_type(), MetricType::Unknown);
    assert_eq!(registry.metric(1).get(), 4);

    let mut encoded = Output::new();
    encode(&mut encoded, &registry).unwrap();

    assert_eq!(
        text(encoded),
        "# HELP zulu the first\n\
         # TYPE zulu counter\n\
         zulu_total 3\n\
         # HELP alpha the second\n\
         # TYPE alpha unknown\n\
         alpha_total 4\n\
         # EOF\n"
    );
}

#[test]
fn document_has_one_end_line_and_one_help_and_type_line_for_each_metric() {
    let mut registry = Registry::new();
    let mut family = MetricFamily::<Vec<(String, String)>, Counter>::new();
    family
        .get_or_create(&vec![("code".to_string(), "200".to_string())])
        .increment();
    family
        .get_or_create(&vec![("code".to_string(), "500".to_string())])
        .increment_by(2);
    registry.register(Descriptor::new(MetricType::Counter, "answers", "answers"), family);
    let more = MetricFamily::<Vec<(String, String)>, Counter>::new();
    registry.register(Descriptor::new(MetricType::Counter, "nothing yet", "idle"), more);

    let mut encoded = Output::new();
    encode(&mut encoded, &registry).unwrap();
    let document = text(encoded);

    assert!(document.ends_with("# EOF\n"));
    let lines: Vec<&str> = document.lines().collect();
    assert_eq!(lines.iter().filter(|line| **line == "# EOF").count(), 1);
    assert_eq!(
        lines,
        vec![
            "# HELP answers answers",
            "# TYPE answers counter",
            "answers_total{code=\"200\"} 1",
            "answers_total{code=\"500\"} 2",
            "# HELP idle nothing yet",
            "# TYPE idle counter",
            "# EOF",
        ]
    );
}

#[test]
fn output_without_room_fails_and_keeps_what_fitted() {
    let mut registry = Registry::new();
    registry.register(
        Descriptor::new(MetricType::Counter, "My counter", "my_counter"),
        Counter::new(),
    );
    let whole = "# HELP my_counter My counter\n\
                 # TYPE my_counter counter\n\
                 my_counter_total 0\n\
                 # EOF\n";

    for limit in 0..whole.len() {
        let mut encoded = Output::with_limit(limit);
        assert_eq!(encode(&mut encoded, &registry), Err(OutputError));
        assert_eq!(encoded.as_bytes(), &whole.as_bytes()[..limit]);
        assert_eq!(encoded.remaining(), 0);
    }

    let mut encoded = Output::with_limit(whole.len());
    assert_eq!(encode(&mut encoded, &registry), Ok(()));
    assert_eq!(encoded.as_bytes(), whole.as_bytes());
    assert_eq!(encoded.remaining(), 0);
}

#[test]
fn every_kind_has_its_word() {
    let kinds = [
        (MetricType::Counter, "counter"),
        (MetricType::Gauge, "gauge"),
        (MetricType::Histogram, "histogram"),
        (MetricType::GaugeHistogram, "gaugehistogram"),
        (MetricType::Summary, "summary"),
        (MetricType::Info, "info"),
        (MetricType::StateSet, "stateset"),
        (MetricType::Unknown, "unknown"),
    ];
    for (kind, word) in kinds {
        assert_eq!(kind.as_str(), word);
        let mut registry = Registry::new();
        registry.register(Descriptor::new(kind, "h", "n"), Counter::new());
        let mut encoded = Output::new();
        encode(&mut encoded, &registry).unwrap();
        assert_eq!(
            text(encoded),
            format!("# HELP n h\n# TYPE n {}\nn_total 0\n# EOF\n", word)
        );
    }
}

#[test]
fn registry_of_metrics_of_every_kind() {
    let mut registry = Registry::new();
    let mut counter = Counter::new();
    counter.increment();
    registry.register(
        Descriptor::new(MetricType::Counter, "starts", "starts"),
        Metric::<Vec<(String, String)>>::Counter(counter),
    );
    let mut histogram = Histogram::new(bounds(&[0.5])).unwrap();
    histogram.observe(&number(0.25), number(0.25));
    registry.register(
        Descriptor::new(MetricType::Histogram, "sizes", "size"),
        Metric::Histogram(histogram),
    );
    let mut counters = MetricFamily::<Vec<(String, String)>, Counter>::new();
    counters
        .get_or_create(&vec![("kind".to_string(), "a".to_string())])
        .increment_by(2);
    registry.register(
        Descriptor::new(MetricType::Counter, "hits by kind", "hits"),
        Metric::CounterFamily(counters),
    );
    let mut histograms = MetricFamily::<Vec<(String, String)>, Histogram>::new();
    histograms
        .get_or_create(&vec![("kind".to_string(), "b".to_string())])
        .observe(&number(3.0), number(3.0));
    registry.register(
        Descriptor::new(MetricType::Histogram, "waits by kind", "wait"),
        Metric::HistogramFamily(histograms),
    );

    let mut encoded = Output::new();
    encode(&mut encoded, &registry).unwrap();

    assert_eq!(
        text(encoded),
        "# HELP starts starts\n\
         # TYPE starts counter\n\
         starts_total 1\n\
         # HELP size sizes\n\
         # TYPE size histogram\n\
         size_sum 0.25\n\
         size_count 1\n\
         size_bucket{le=\"0.5\"} 1\n\
         size_bucket{le=\"+Inf\"} 1\n\
         # HELP hits hits by kind\n\
         # TYPE hits counter\n\
         hits_total{kind=\"a\"} 2\n\
         # HELP wait waits by kind\n\
         # TYPE wait histogram\n\
         wait_sum{kind=\"b\"} 3\n\
         wait_count{kind=\"b\"} 1\n\
         wait_bucket{kind=\"b\",le=\"+Inf\"} 1\n\
         # EOF\n"
    );
}
