use open_metrics_client::counter::Counter;
use open_metrics_client::encoding::{Encode, EncodeMetric, Encoder};
use open_metrics_client::family::MetricFamily;
use open_metrics_client::histogram::Histogram;
use open_metrics_client::label::LabelSet;
use open_metrics_client::number::{Bound, Number};
use open_metrics_client::output::Output;

fn labels(pairs: &[(&str, &str)]) -> Vec<(String, String)> {
    pairs
        .iter()
        .map(|(name, value)| (name.to_string(), value.to_string()))
        .collect()
}

fn number(x: f64) -> Number {
    Number::new(x.to_bits(), &x.to_string())
}

fn finite(x: f64) -> Bound {
    Bound::Finite(number(x))
}

fn counts(histogram: &Histogram) -> Vec<u64> {
    histogram.buckets().iter().map(|bucket| bucket.1).collect()
}

fn bound_texts(histogram: &Histogram) -> Vec<String> {
    histogram
        .buckets()
        .iter()
        .map(|bucket| bucket.0.as_str().to_string())
        .collect()
}

#[test]
fn counter_starts_at_zero_and_grows() {
    let mut counter = Counter::new();
    assert_eq!(counter.get(), 0);
    assert_eq!(Counter::default().get(), 0);
    let mut last = counter.get();
    for step in [1u64, 0, 7, 0, 1000, 3] {
        counter.increment_by(step);
        assert!(counter.get() >= last);
        assert_eq!(counter.get(), last + step);
        last = counter.get();
        counter.increment();
        assert_eq!(counter.get(), last + 1);
        last = counter.get();
    }
    assert_eq!(counter.get(), 1017);
}

#[test]
fn counter_wraps_where_the_sum_does_not_fit() {
    let mut counter = Counter::new();
    counter.increment_by(u64::MAX);
    assert_eq!(counter.get(), u64::MAX);
    counter.increment();
    assert_eq!(counter.get(), 0);
    counter.increment_by(5);
    counter.increment_by(u64::MAX);
    assert_eq!(counter.get(), 4);
}

#[test]
fn histogram_counts_are_cumulative() {
    let mut histogram =
        Histogram::new(vec![finite(-1.0), finite(0.0), finite(2.0), finite(2.0), finite(3.5)])
            .unwrap();
    assert_eq!(counts(&histogram), vec![0, 0, 0, 0, 0, 0]);
    assert_eq!(bound_texts(&histogram), vec!["-1", "0", "2", "2", "3.5", "+Inf"]);
    assert_eq!(histogram.count(), 0);
    assert_eq!(histogram.sum().text, "0");
    assert_eq!(histogram.sum().bits, 0);

    let values = [
        1.5,
        -1.0,
        3.6,
        -4.0,
        2.0,
        2.1,
        3.5,
        -0.0,
        f64::MAX,
        f64::MIN,
        f64::INFINITY,
        f64::NEG_INFINITY,
        f64::NAN,
        5e-324,
    ];
    let mut sum = 0.0;
    for (n, value) in values.iter().enumerate() {
        sum += value;
        histogram.observe(&number(*value), number(sum));
        let after = counts(&histogram);
        for i in 0..after.len() - 1 {
            assert!(after[i] <= after[i + 1]);
        }
        assert_eq!(*after.last().unwrap(), histogram.count());
        assert_eq!(histogram.count(), n as u64 + 1);
        assert_eq!(histogram.sum().bits, sum.to_bits());
        assert_eq!(histogram.sum().text, sum.to_string());
    }
    assert_eq!(counts(&histogram), vec![4, 5, 8, 8, 10, 14]);
    assert_eq!(bound_texts(&histogram), vec!["-1", "0", "2", "2", "3.5", "+Inf"]);
}

#[test]
fn histogram_keeps_the_last_bucket_that_it_is_given() {
    let histogram = Histogram::new(vec![finite(1.0), Bound::Infinite]).unwrap();
    assert_eq!(bound_texts(&histogram), vec!["1", "+Inf"]);
    let histogram = Histogram::new(vec![Bound::Infinite]).unwrap();
    assert_eq!(bound_texts(&histogram), vec!["+Inf"]);
    let histogram = Histogram::new(vec![]).unwrap();
    assert_eq!(bound_texts(&histogram), vec!["+Inf"]);
    assert_eq!(counts(&histogram), vec![0]);
    let histogram =
        Histogram::new(vec![Bound::of(number(1.0)), Bound::of(number(f64::MAX))]).unwrap();
    assert_eq!(bound_texts(&histogram), vec!["1", "+Inf"]);
}

#[test]
fn histogram_refuses_bounds_that_do_not_ascend() {
    assert!(Histogram::new(vec![finite(2.0), finite(1.0)]).is_none());
    assert!(Histogram::new(vec![finite(1.0), finite(3.0), finite(2.0)]).is_none());
    assert!(Histogram::new(vec![finite(-1.0), finite(-2.0)]).is_none());
    assert!(Histogram::new(vec![Bound::Infinite, finite(1.0)]).is_none());
    assert!(Histogram::new(vec![Bound::Infinite, Bound::Infinite]).is_none());
    assert!(Histogram::new(vec![finite(1.0), Bound::Infinite, Bound::Infinite]).is_none());
    assert!(Histogram::new(vec![finite(1.0), finite(1.0)]).is_some());
    assert!(Histogram::new(vec![finite(-2.0), finite(-1.0), finite(0.0)]).is_some());
}

#[test]
fn bound_holds_what_is_at_most_it() {
    let bound = finite(5.0);
    assert!(bound.holds(&number(5.0)));
    assert!(bound.holds(&number(-5.0)));
    assert!(!bound.holds(&number(6.0)));
    assert!(!bound.is_infinite());
    assert_eq!(bound.as_str(), "5");
    assert!(Bound::Infinite.holds(&number(f64::MAX)));
    assert!(Bound::Infinite.holds(&number(f64::INFINITY)));
    assert!(Bound::Infinite.is_infinite());
    assert_eq!(Bound::Infinite.as_str(), "+Inf");
}

#[test]
fn largest_finite_number_is_no_bound() {
    assert_eq!(open_metrics_client::number::LARGEST_FINITE, f64::MAX.to_bits());
    assert!(Bound::of(number(f64::MAX)).is_infinite());
    assert!(Bound::of(number(f64::INFINITY)).is_infinite());
    assert!(!Bound::of(number(1.7976931348623155e308)).is_infinite());
    assert!(!Bound::of(number(0.0)).is_infinite());
    assert!(!Bound::of(number(f64::MIN)).is_infinite());
    assert!(!Bound::of(number(f64::NEG_INFINITY)).is_infinite());
    assert_eq!(Bound::of(number(2.5)).as_str(), "2.5");
    assert_eq!(Bound::of(number(f64::MAX)).as_str(), "+Inf");
}

#[test]
fn ranks_order_numbers_as_the_numbers_are_ordered() {
    let numbers = [
        f64::NEG_INFINITY,
        f64::MIN,
        -1e300,
        -2.5,
        -1.0,
        -f64::MIN_POSITIVE,
        -5e-324,
        -0.0,
        0.0,
        5e-324,
        f64::MIN_POSITIVE,
        0.1,
        1.0,
        1.5,
        2.0,
        1e300,
        f64::MAX,
        f64::INFINITY,
    ];
    for a in numbers {
        for b in numbers {
            assert_eq!(number(a).at_most(&number(b)), a <= b);
            assert_eq!(number(a).rank() <= number(b).rank(), a <= b);
            assert_eq!(number(a).rank() == number(b).rank(), a == b);
        }
    }
    assert_eq!(number(0.0).rank(), 0);
    assert_eq!(number(-0.0).rank(), 0);
    assert_eq!(number(5e-324).rank(), 1);
    assert_eq!(number(-5e-324).rank(), -1);
    assert_eq!(number(f64::MAX).rank(), 0x7FEF_FFFF_FFFF_FFFF);
    assert_eq!(Number::new(u64::MAX, "NaN").rank(), -0x7FFF_FFFF_FFFF_FFFF);
    assert_eq!(Number::zero().bits, 0);
    assert_eq!(Number::zero().text, "0");
}

#[test]
fn histogram_under_labels() {
    let mut histogram = Histogram::new(vec![finite(0.1)]).unwrap();
    histogram.observe(&number(0.05), number(0.05));
    histogram.observe(&number(7.0), number(7.05));
    let series = labels(&[("path", "/")]);
    let mut out = Output::new();
    let mut encoder = Encoder::<()>::new(&mut out, "t");
    histogram.encode(encoder.with_label_set(&series)).unwrap();
    assert_eq!(
        String::from_utf8(out.into_bytes()).unwrap(),
        "t_sum{path=\"/\"} 7.05\n\
         t_count{path=\"/\"} 2\n\
         t_bucket{path=\"/\",le=\"0.1\"} 1\n\
         t_bucket{path=\"/\",le=\"+Inf\"} 2\n"
    );
}

#[test]
fn family_has_one_series_for_one_label_set() {
    let mut family = MetricFamily::<Vec<(String, String)>, Counter>::new();
    assert_eq!(family.len(), 0);
    let get = labels(&[("method", "GET")]);
    for _ in 0..10 {
        family.get_or_create(&get).increment();
    }
    assert_eq!(family.len(), 1);
    assert_eq!(family.position(&get), Some(0));
    assert_eq!(family.get_or_create(&labels(&[("method", "GET")])).get(), 10);

    let post = labels(&[("method", "POST")]);
    assert_eq!(family.position(&post), None);
    family.get_or_create(&post).increment_by(3);
    family.get_or_create(&get).increment();
    assert_eq!(family.len(), 2);
    assert_eq!(family.position(&get), Some(0));
    assert_eq!(family.position(&post), Some(1));
    let (first_labels, first) = family.series(0);
    assert_eq!(first_labels, &get);
    assert_eq!(first.get(), 11);
    let (second_labels, second) = family.series(1);
    assert_eq!(second_labels, &post);
    assert_eq!(second.get(), 3);
}

#[test]
fn label_sets_are_the_same_key_in_the_same_order_only() {
    let mut family = MetricFamily::<Vec<(String, String)>, Counter>::new();
    family.get_or_create(&labels(&[("a", "1"), ("b", "2")])).increment();
    family.get_or_create(&labels(&[("b", "2"), ("a", "1")])).increment();
    family.get_or_create(&labels(&[("a", "1")])).increment();
    family.get_or_create(&labels(&[])).increment();
    family.get_or_create(&labels(&[("a", "1"), ("b", "3")])).increment();
    assert_eq!(family.len(), 5);

    let mut out = Output::new();
    family.encode(Encoder::<()>::new(&mut out, "n")).unwrap();
    assert_eq!(
        String::from_utf8(out.into_bytes()).unwrap(),
        "n_total{a=\"1\",b=\"2\"} 1\n\
         n_total{b=\"2\",a=\"1\"} 1\n\
         n_total{a=\"1\"} 1\n\
         n_total 1\n\
         n_total{a=\"1\",b=\"3\"} 1\n"
    );
}

#[test]
fn family_without_series_has_no_lines() {
    let mut family = MetricFamily::<Vec<(String, String)>, Counter>::new();
    let mut out = Output::new();
    family.encode(Encoder::<()>::new(&mut out, "n")).unwrap();
    assert_eq!(out.as_bytes(), b"");
    family.get_or_create(&labels(&[("k", "v")]));
    family.encode(Encoder::<()>::new(&mut out, "n")).unwrap();
    assert_eq!(out.as_bytes(), b"n_total{k=\"v\"} 0\n");
}

#[test]
fn label_set_capabilities() {
    let one = labels(&[("method", "GET"), ("code", "200")]);
    assert!(one.same_as(&labels(&[("method", "GET"), ("code", "200")])));
    assert!(!one.same_as(&labels(&[("code", "200"), ("method", "GET")])));
    assert!(!one.same_as(&labels(&[("method", "GET")])));
    assert!(!one.same_as(&labels(&[("method", "GET"), ("code", "201")])));
    assert!(!one.same_as(&labels(&[("method", "GET"), ("kode", "200")])));
    assert_eq!(one.duplicate(), one);
    assert!(one.has_distinct_names());
    assert!(labels(&[]).has_distinct_names());
    assert!(!labels(&[("a", "1"), ("b", "2"), ("a", "3")]).has_distinct_names());
    assert!(!labels(&[("a", "1"), ("a", "1")]).has_distinct_names());

    let mut out = Output::new();
    one.encode(&mut out).unwrap();
    assert_eq!(out.as_bytes(), b"method=\"GET\",code=\"200\"");
    let mut out = Output::new();
    labels(&[]).encode(&mut out).unwrap();
    assert_eq!(out.as_bytes(), b"");
    let mut out = Output::with_limit(9);
    assert!(one.encode(&mut out).is_err());
    assert_eq!(out.as_bytes(), b"method=\"G");
}

#[test]
fn family_of_histograms_makes_each_with_one_bucket() {
    let mut family = MetricFamily::<Vec<(String, String)>, Histogram>::new();
    family
        .get_or_create(&labels(&[("path", "/")]))
        .observe(&number(0.9), number(0.9));
    assert_eq!(counts(&Histogram::default()), vec![0]);
    assert_eq!(Histogram::default().sum().text, "0");
    let mut out = Output::new();
    family.encode(Encoder::<()>::new(&mut out, "t")).unwrap();
    assert_eq!(
        String::from_utf8(out.into_bytes()).unwrap(),
        "t_sum{path=\"/\"} 0.9\n\
         t_count{path=\"/\"} 1\n\
         t_bucket{path=\"/\",le=\"+Inf\"} 1\n"
    );
}
