use open_metrics_client::encoding::Encode;
use open_metrics_client::output::{Output, OutputError};

#[test]
fn write_appends_what_fits() {
    let mut out = Output::with_limit(5);
    assert_eq!(out.write(b"abc"), Ok(()));
    assert_eq!(out.as_bytes(), b"abc");
    assert_eq!(out.remaining(), 2);
    assert_eq!(out.write(b"defg"), Err(OutputError));
    assert_eq!(out.as_bytes(), b"abcde");
    assert_eq!(out.remaining(), 0);
}

#[test]
fn full_output_takes_nothing_more() {
    let mut out = Output::with_limit(2);
    assert_eq!(out.write(b"ab"), Ok(()));
    assert_eq!(out.write(b""), Ok(()));
    assert_eq!(out.write(b"c"), Err(OutputError));
    assert_eq!(out.into_bytes(), b"ab".to_vec());
}

#[test]
fn new_output_is_empty_and_wide() {
    let out = Output::new();
    assert_eq!(out.as_bytes(), b"");
    assert_eq!(out.remaining(), usize::MAX);
    let out = Output::with_limit(0);
    assert_eq!(out.as_bytes(), b"");
    assert_eq!(out.remaining(), 0);
}

#[test]
fn whole_numbers_are_written_in_decimal() {
    let mut out = Output::new();
    assert_eq!(0u64.encode(&mut out), Ok(()));
    assert_eq!(out.write(b" "), Ok(()));
    assert_eq!(9u64.encode(&mut out), Ok(()));
    assert_eq!(out.write(b" "), Ok(()));
    assert_eq!(10u64.encode(&mut out), Ok(()));
    assert_eq!(out.write(b" "), Ok(()));
    assert_eq!(1905u64.encode(&mut out), Ok(()));
    assert_eq!(out.write(b" "), Ok(()));
    assert_eq!(u64::MAX.encode(&mut out), Ok(()));
    assert_eq!(out.as_bytes(), b"0 9 10 1905 18446744073709551615");
}

#[test]
fn number_that_does_not_fit_is_cut_off() {
    let mut out = Output::with_limit(3);
    assert_eq!(12345u64.encode(&mut out), Err(OutputError));
    assert_eq!(out.as_bytes(), b"123");
}

#[test]
fn text_is_written_as_it_is() {
    let mut out = Output::new();
    assert_eq!("a \"b\"\\ \u{e9}".encode(&mut out), Ok(()));
    assert_eq!(out.as_bytes(), "a \"b\"\\ \u{e9}".as_bytes());
    assert_eq!(().encode(&mut out), Ok(()));
    assert_eq!(out.as_bytes(), "a \"b\"\\ \u{e9}".as_bytes());
}
