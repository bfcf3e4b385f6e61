use prom_write::crate_version;
use prom_write::run;
use prom_write::Args;
use prom_write::Cmd;
use prom_write::Label;
use prom_write::MetricOrFile;
use prom_write::MetricType;
use prom_write::Plan;
use prom_write::Sample;
use prom_write::TimeSeries;
use prom_write::WriteRequest;

fn mkargs(args: &[&str]) -> Vec<String> {
    args.iter().map(|s| s.to_string()).collect()
}

fn mkpairs(pairs: &[(&str, &str)]) -> Vec<(String, String)> {
    pairs.iter().map(|(k, v)| (k.to_string(), v.to_string())).collect()
}

fn normalized(url: &str) -> String {
    url::Url::parse(url).unwrap().as_str().to_string()
}

fn parse_err(args: &[&str]) -> String {
    Cmd::parse(&mkargs(args)).unwrap_err().message()
}

#[test]
fn test_parse_help() {
    let cmd = Cmd::parse(&mkargs(&["--help"])).unwrap();
    assert_eq!(cmd, Cmd::Help);
}

#[test]
fn test_parse_version() {
    let cmd = Cmd::parse(&mkargs(&["--version"])).unwrap();
    assert_eq!(cmd, Cmd::Version);
}

#[test]
fn test_parse_args_file_sparse_short() {
    let cmd = Cmd::parse(&mkargs(&["-u", "http://test.com", "-f", "test.txt"])).unwrap();
    assert_eq!(
        cmd,
        Cmd::Run(Args {
            url: normalized("http://test.com"),
            timeout_secs: None,
            input: MetricOrFile::File("test.txt".to_string()),
            headers: Vec::new(),
        })
    );
}

#[test]
fn test_parse_url_arg_only_once() {
    let err = parse_err(&["-u", "http://test.com", "-f", "test.txt", "-u", "http://test2.com"]);
    assert!(err.contains("only be specified once"));
}

#[test]
fn test_parse_url_without_value() {
    let err = parse_err(&["-u"]);
    assert!(err.contains("requires a value"));
}

#[test]
fn test_parse_header_arg_without_value() {
    let err = parse_err(&["-h"]);
    assert!(err.contains("requires a value"));
}

#[test]
fn test_parse_header_without_eq() {
    let err = parse_err(&["-h", "a"]);
    assert!(err.contains("key-value pair"));
}

#[test]
fn test_parse_header_name_invalid() {
    let err = parse_err(&["-h", "ööáá=123"]);
    assert!(err.contains("invalid header name"));
}

#[test]
fn test_parse_invalid_header_value() {
    let val = "öö\0\t\náá";
    assert!(val.parse::<http::header::HeaderValue>().is_err());

    let err = parse_err(&["-h", &format!("a={val}")]);
    assert!(err.contains("invalid header value"));
}

#[test]
fn test_parse_file_once() {
    let err = parse_err(&["-f", "test.txt", "--file", "test2.txt"]);
    assert!(err.contains("only be specified once"));
}

#[test]
fn test_parse_name_once() {
    let err = parse_err(&["-n", "name", "--name", "name2"]);
    assert!(err.contains("only be specified once"));
}

#[test]
fn test_parse_name_without_value() {
    let err = parse_err(&["-n"]);
    assert!(err.contains("requires a value"));
}

#[test]
fn test_parse_name_with_empty_value() {
    let err = parse_err(&["-n", ""]);
    assert!(err.contains("requires a non-empty value"));
}

#[test]
fn test_parse_type_once() {
    let err = parse_err(&["-t", "counter", "--type", "gauge"]);
    assert!(err.contains("only be specified once"));
}

#[test]
fn test_parse_type_without_value() {
    let err = parse_err(&["-t"]);
    assert!(err.contains("requires a value"));
}

#[test]
fn test_parse_url_invalid() {
    let err = parse_err(&["--url", "/////!"]);
    assert!(err.contains("invalid url"));
}

#[test]
fn test_parse_empty_header_key() {
    let err = parse_err(&["-h", "=lala"]);
    assert!(err.contains("empty key"));
}

#[test]
fn test_parse_type_summary() {
    let err = parse_err(&["-t", "summary"]);
    assert!(err.contains("not supported yet"));
}

#[test]
fn test_parse_type_histogram() {
    let err = parse_err(&["-t", "histogram"]);
    assert!(err.contains("not supported yet"));
}

#[test]
fn test_parse_unknown_type() {
    let err = parse_err(&["-t", "unknown"]);
    assert!(err.contains("unknown metric type"));
}

#[test]
fn test_parse_value_once() {
    let err = parse_err(&["-v", "1.5", "--value", "2.5"]);
    assert!(err.contains("only be specified once"));
}

#[test]
fn test_parse_value_without_value() {
    let err = parse_err(&["-v"]);
    assert!(err.contains("requires a value"));
}

#[test]
fn test_parse_value_not_a_number() {
    let err = parse_err(&["-v", "a"]);
    assert!(err.contains("requires a number"));
}

#[test]
fn test_parse_label_without_value() {
    let err = parse_err(&["-l"]);
    assert!(err.contains("requires a value"));
}

#[test]
fn test_parse_label_no_key_value() {
    let err = parse_err(&["-l", "a"]);
    assert!(err.contains("key-value pair"));
}

#[test]
fn test_parse_label_empty_key() {
    let err = parse_err(&["-l", "=a"]);
    assert!(err.contains("empty key"));
}

#[test]
fn test_parse_label_empty_value() {
    let err = parse_err(&["-l", "a="]);
    assert!(err.contains("empty value"));
}

#[test]
fn test_parse_unknown_argument() {
    let err = parse_err(&["--unknown"]);
    assert!(err.contains("unknown argument"));
}

#[test]
fn test_parse_missing_url() {
    let err = parse_err(&["-f", "test.txt"]);
    assert!(err.contains("missing required argument -u"));
}

#[test]
fn test_parse_metric_with_missing_args() {
    let err = parse_err(&["-u", "http://local", "-n", "name"]);
    assert!(err.contains("missing required argument -v"));

    let err = parse_err(&["-u", "http://local", "-v", "1.5"]);
    assert!(err.contains("missing required argument -n/--name"));
}

#[test]
fn test_parse_autodetect_counter_type() {
    let args = Cmd::parse(&mkargs(&["-u", "http://local", "-n", "x_total", "-v", "123"]))
        .unwrap()
        .try_into_run()
        .unwrap();

    assert_eq!(
        args.input,
        MetricOrFile::Metric {
            name: "x_total".to_string(),
            kind: MetricType::Counter,
            labels: Vec::new(),
            value: "123".to_string(),
        }
    );
}

#[test]
fn test_parse_file_with_metric_args() {
    let err = parse_err(&["-u", "http://local", "-f", "test.txt", "-n", "name"]);
    assert!(err.contains("cannot be used with"));

    let err = parse_err(&["-u", "http://local", "--file", "test.txt", "-t", "counter"]);
    assert!(err.contains("cannot be used with"));

    let err = parse_err(&["-u", "http://local", "-f", "test.txt", "-v", "1.5"]);
    assert!(err.contains("cannot be used with"));

    let err = parse_err(&["-u", "http://local", "-f", "test.txt", "-l", "a=b"]);
    assert!(err.contains("cannot be used with"));
}

#[test]
fn test_parse_args_file_full_short() {
    let cmd = Cmd::parse(&mkargs(&[
        "-u",
        "http://test.com",
        "-f",
        "test.txt",
        "-h",
        "a=a123",
        "--timeout",
        "11",
        "--header",
        "blub=lala5",
    ]))
    .unwrap();
    assert_eq!(
        cmd,
        Cmd::Run(Args {
            url: normalized("http://test.com"),
            timeout_secs: Some(11),
            input: MetricOrFile::File("test.txt".to_string()),
            headers: mkpairs(&[("a", "a123"), ("blub", "lala5")]),
        })
    );
}

#[test]
fn test_parse_file_full_long() {
    let cmd = Cmd::parse(&mkargs(&[
        "--url",
        "http://test.com:8080",
        "--file",
        "test.txt",
        "-h",
        "a=a123",
        "--timeout",
        "11",
        "--header",
        "blub=lala5",
    ]))
    .unwrap();
    assert_eq!(
        cmd,
        Cmd::Run(Args {
            url: normalized("http://test.com:8080"),
            timeout_secs: Some(11),
            input: MetricOrFile::File("test.txt".to_string()),
            headers: mkpairs(&[("a", "a123"), ("blub", "lala5")]),
        })
    );
}

#[test]
fn test_parse_args_metric_sparse_short() {
    let cmd = Cmd::parse(&mkargs(&["-u", "http://test.com", "-n", "name", "-v", "1.5"])).unwrap();
    assert_eq!(
        cmd,
        Cmd::Run(Args {
            url: normalized("http://test.com"),
            timeout_secs: None,
            input: MetricOrFile::Metric {
                name: "name".to_string(),
                kind: MetricType::Gauge,
                labels: Vec::new(),
                value: "1.5".to_string(),
            },
            headers: Vec::new(),
        })
    );

    let args = cmd.try_into_run().unwrap();
    let write_req = args.build_write_request(1.5f64.to_bits(), 0).unwrap();

    assert_eq!(
        write_req,
        WriteRequest {
            timeseries: vec![TimeSeries {
                labels: vec![Label {
                    name: "__name__".to_string(),
                    value: "name".to_string(),
                }],
                samples: vec![Sample { value_bits: 1.5f64.to_bits(), timestamp: 0 }],
            }],
        }
    );
}

fn header_value(req: &prom_write::HttpRequest, name: &str) -> Option<String> {
    req.headers.iter().find(|(k, _)| k == name).map(|(_, v)| v.clone())
}

#[test]
fn test_parse_args_metric_full_short() {
    let cmd = Cmd::parse(&mkargs(&[
        "-u",
        "http://test.com",
        "-t",
        "gauge",
        "-n",
        "name",
        "-v",
        "1.5",
        "-l",
        "alph123=valval123",
        "-l",
        "l2=v2",
        "--label",
        "l3=vv3",
        "-h",
        "h1=a123",
    ]))
    .unwrap();
    assert_eq!(
        cmd,
        Cmd::Run(Args {
            url: normalized("http://test.com"),
            timeout_secs: None,
            input: MetricOrFile::Metric {
                name: "name".to_string(),
                kind: MetricType::Gauge,
                labels: mkpairs(&[("alph123", "valval123"), ("l2", "v2"), ("l3", "vv3")]),
                value: "1.5".to_string(),
            },
            headers: mkpairs(&[("h1", "a123")]),
        })
    );

    let args = cmd.try_into_run().unwrap();
    let req = args.build_write_request(1.5f64.to_bits(), 0).unwrap();
    let hreq = args.build_http_req(req, "test").unwrap();
    assert_eq!(header_value(&hreq, "h1").unwrap(), "a123");
}

#[test]
fn test_parse_args_metric_full_long() {
    let args = Cmd::parse(&mkargs(&[
        "--url",
        "http://test.com",
        "--name",
        "name",
        "--value",
        "1.5",
        "--type",
        "counter",
        "--label",
        "alph123=valval123",
        "-l",
        "l2=v2",
        "--label",
        "l3=vv3",
        "--header",
        "h1=a123",
        "--timeout",
        "123",
    ]))
    .unwrap()
    .try_into_run()
    .unwrap();
    assert_eq!(
        args,
        Args {
            url: normalized("http://test.com"),
            timeout_secs: Some(123),
            input: MetricOrFile::Metric {
                name: "name".to_string(),
                kind: MetricType::Counter,
                labels: mkpairs(&[("alph123", "valval123"), ("l2", "v2"), ("l3", "vv3")]),
                value: "1.5".to_string(),
            },
            headers: mkpairs(&[("h1", "a123")]),
        }
    );
}

fn run_stdout(args: &[&str]) -> String {
    match run(mkargs(args)).unwrap() {
        Plan::Stdout(s) => s,
        Plan::Send(_) => panic!("expected text output"),
    }
}

#[test]
fn test_run_version() {
    let stdout = run_stdout(&["--version"]);
    assert!(stdout.contains("prom-write"));
    assert!(stdout.contains(crate_version()));
}

#[test]
fn test_run_help() {
    let stdout = run_stdout(&["--help"]);
    assert!(stdout.contains("prom-write"));
    assert!(stdout.contains("--url"));
}

// Make sure writing to a vec works as expected.
#[test]
fn test_vec_write() {
    let mut buf = Vec::<u8>::new();

    std::io::Write::write_all(&mut buf, b"test\n").unwrap();
    std::io::Write::write_all(&mut buf, b"test2\n").unwrap();

    assert_eq!(buf, b"test\ntest2\n");
}

#[test]
fn test_float_literal_grammar_matches_float_parsing() {
    let cases = [
        "1.5", "123", "-1.5", "+2", "1.", ".5", "1e3", "1.5e-3", "2E+7", "inf", "INF",
        "infinity", "nan", "NaN", "-inf", "", "a", ".", "e3", "1.5e", "1.5.5", "1 2", "0x10",
        "--1", "1e", "infx",
    ];
    for case in cases {
        assert_eq!(
            prom_write::cli::is_float_literal(case),
            case.parse::<f64>().is_ok(),
            "case: {case:?}"
        );
    }
}

#[test]
fn test_custom_header_overrides_fixed_header() {
    let args = Cmd::parse(&mkargs(&[
        "-u",
        "http://test.com",
        "-n",
        "name",
        "-v",
        "1.5",
        "-h",
        "User-Agent=custom",
    ]))
    .unwrap()
    .try_into_run()
    .unwrap();
    let req = args.build_write_request(1.5f64.to_bits(), 0).unwrap();
    let hreq = args.build_http_req(req, "prom-write/test").unwrap();
    assert_eq!(hreq.method, "POST");
    assert_eq!(hreq.url, normalized("http://test.com"));
    assert_eq!(header_value(&hreq, "content-type").unwrap(), "application/x-protobuf");
    assert_eq!(header_value(&hreq, "x-prometheus-remote-write-version").unwrap(), "0.1.0");
    assert_eq!(header_value(&hreq, "content-encoding").unwrap(), "snappy");
    // The caller's header replaced the fixed user agent; names are
    // lower-cased on parsing, so the merge is case-insensitive.
    assert_eq!(header_value(&hreq, "user-agent").unwrap(), "custom");
    assert_eq!(hreq.headers.len(), 4);
}
