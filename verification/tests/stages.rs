use open_metrics_client::encoding::Encoder;
use open_metrics_client::output::{Output, OutputError};

fn labels(pairs: &[(&str, &str)]) -> Vec<(String, String)> {
    pairs
        .iter()
        .map(|(name, value)| (name.to_string(), value.to_string()))
        .collect()
}

#[test]
fn line_without_suffix_and_labels() {
    let mut out = Output::new();
    let mut encoder = Encoder::<()>::new(&mut out, "up");
    encoder
        .no_suffix()
        .unwrap()
        .no_bucket()
        .unwrap()
        .encode_value(1u64)
        .unwrap();
    assert_eq!(out.as_bytes(), b"up 1\n");
}

#[test]
fn line_with_suffix() {
    let mut out = Output::new();
    let mut encoder = Encoder::<()>::new(&mut out, "requests");
    encoder
        .encode_suffix("total")
        .unwrap()
        .no_bucket()
        .unwrap()
        .encode_value(5u64)
        .unwrap();
    assert_eq!(out.as_bytes(), b"requests_total 5\n");
}

#[test]
fn line_with_bucket_label_alone() {
    let mut out = Output::new();
    let mut encoder = Encoder::<()>::new(&mut out, "latency");
    encoder
        .encode_suffix("bucket")
        .unwrap()
        .encode_bucket("le", "+Inf")
        .unwrap()
        .encode_value(7u64)
        .unwrap();
    assert_eq!(out.as_bytes(), b"latency_bucket{le=\"+Inf\"} 7\n");
}

#[test]
fn line_with_labels_of_the_series() {
    let mut out = Output::new();
    let series = labels(&[("method", "GET"), ("code", "200")]);
    let mut encoder = Encoder::<()>::new(&mut out, "requests");
    let mut labelled = encoder.with_label_set(&series);
    labelled
        .encode_suffix("total")
        .unwrap()
        .no_bucket()
        .unwrap()
        .encode_value(1u64)
        .unwrap();
    assert_eq!(out.as_bytes(), b"requests_total{method=\"GET\",code=\"200\"} 1\n");
}

#[test]
fn bucket_label_comes_last_in_the_one_block() {
    let mut out = Output::new();
    let series = labels(&[("method", "GET")]);
    let mut encoder = Encoder::<()>::new(&mut out, "latency");
    let mut labelled = encoder.with_label_set(&series);
    labelled
        .encode_suffix("bucket")
        .unwrap()
        .encode_bucket("le", "0.5")
        .unwrap()
        .encode_value(3u64)
        .unwrap();
    labelled
        .no_suffix()
        .unwrap()
        .encode_bucket("le", "1")
        .unwrap()
        .encode_value(4u64)
        .unwrap();
    assert_eq!(
        out.as_bytes(),
        b"latency_bucket{method=\"GET\",le=\"0.5\"} 3\n\
          latency{method=\"GET\",le=\"1\"} 4\n" as &[u8]
    );
}

#[test]
fn label_block_alone_can_begin_a_line() {
    let mut out = Output::new();
    let series = labels(&[("a", "b")]);
    let mut encoder = Encoder::<()>::new(&mut out, "");
    let mut labelled = encoder.with_label_set(&series);
    labelled
        .encode_labels()
        .unwrap()
        .no_bucket()
        .unwrap()
        .encode_value(0u64)
        .unwrap();
    assert_eq!(out.as_bytes(), b"{a=\"b\"} 0\n");
}

#[test]
fn each_stage_fails_where_the_output_ends() {
    let whole: &[u8] = b"latency_bucket{method=\"GET\",le=\"0.5\"} 3\n";
    let series = labels(&[("method", "GET")]);
    for limit in 0..whole.len() {
        let mut out = Output::with_limit(limit);
        let mut encoder = Encoder::<()>::new(&mut out, "latency");
        let mut labelled = encoder.with_label_set(&series);
        let done = match labelled.encode_suffix("bucket") {
            Err(e) => Err(e),
            Ok(stage) => match stage.encode_bucket("le", "0.5") {
                Err(e) => Err(e),
                Ok(stage) => stage.encode_value(3u64),
            },
        };
        assert_eq!(done, Err(OutputError));
        assert_eq!(out.as_bytes(), &whole[..limit]);
    }
    let mut out = Output::with_limit(whole.len());
    let mut encoder = Encoder::<()>::new(&mut out, "latency");
    let mut labelled = encoder.with_label_set(&series);
    labelled
        .encode_suffix("bucket")
        .unwrap()
        .encode_bucket("le", "0.5")
        .unwrap()
        .encode_value(3u64)
        .unwrap();
    assert_eq!(out.as_bytes(), whole);
}

#[test]
fn empty_label_set_opens_no_block() {
    let mut out = Output::new();
    let none = labels(&[]);
    let mut encoder = Encoder::<()>::new(&mut out, "n");
    let mut series = encoder.with_label_set(&none);
    series
        .encode_suffix("total")
        .unwrap()
        .no_bucket()
        .unwrap()
        .encode_value(1u64)
        .unwrap();
    series
        .encode_suffix("bucket")
        .unwrap()
        .encode_bucket("le", "1")
        .unwrap()
        .encode_value(2u64)
        .unwrap();
    let nothing = ();
    let mut series = encoder.with_label_set(&nothing);
    series
        .no_suffix()
        .unwrap()
        .encode_bucket("le", "+Inf")
        .unwrap()
        .encode_value(3u64)
        .unwrap();
    assert_eq!(
        out.as_bytes(),
        b"n_total 1\nn_bucket{le=\"1\"} 2\nn{le=\"+Inf\"} 3\n" as &[u8]
    );
}
