use prom_write::Label;
use prom_write::MetricValue;
use prom_write::Observation;
use prom_write::ParseError;
use prom_write::Sample;
use prom_write::TimeSeries;
use prom_write::WriteRequest;
use prom_write::LABEL_NAME;

fn label(name: &str, value: &str) -> Label {
    Label { name: name.to_string(), value: value.to_string() }
}

#[test]
fn test_name() {
    let input = r#"
# TYPE mycounter counter
# TYPE mygauge gauge

mygauge 100 100
http_requests_total{method="post",code="200"} 1027 1395066363000
mycounter 100 100
alpha 10 1000
http_requests_total{method="post",code="200"} 50 1000
    "#;

    let req = WriteRequest::from_text_format(input.to_string()).unwrap();

    assert_eq!(
        req,
        WriteRequest {
            timeseries: vec![
                TimeSeries {
                    labels: vec![label(LABEL_NAME, "alpha")],
                    samples: vec![Sample { value_bits: 10.0f64.to_bits(), timestamp: 1000 }],
                },
                TimeSeries {
                    labels: vec![
                        label(LABEL_NAME, "http_requests_total"),
                        label("code", "200"),
                        label("method", "post"),
                    ],
                    samples: vec![
                        Sample { value_bits: 50.0f64.to_bits(), timestamp: 1000 },
                        Sample { value_bits: 1027.0f64.to_bits(), timestamp: 1395066363000 },
                    ],
                },
                TimeSeries {
                    labels: vec![label(LABEL_NAME, "mycounter")],
                    samples: vec![Sample { value_bits: 100.0f64.to_bits(), timestamp: 100 }],
                },
                TimeSeries {
                    labels: vec![label(LABEL_NAME, "mygauge")],
                    samples: vec![Sample { value_bits: 100.0f64.to_bits(), timestamp: 100 }],
                },
            ],
        }
    );

    let _x = req.clone().encode_proto3();
    let _y = req.encode_compressed();
}

fn observation(
    metric: &str,
    labels: &[(&str, &str)],
    value: MetricValue,
    timestamp_millis: i64,
) -> Observation {
    Observation {
        metric: metric.to_string(),
        labels: labels.iter().map(|(k, v)| label(k, v)).collect(),
        value,
        timestamp_millis,
    }
}

#[test]
fn test_grouping_merges_same_identity() {
    // Three observations of one identity, labels given in different
    // orders, arrive interleaved with another metric: exactly one
    // series holds all three samples.
    let obs = vec![
        observation(
            "reqs",
            &[("a", "1"), ("b", "2")],
            MetricValue::Counter(1.0f64.to_bits()),
            30,
        ),
        observation("other", &[], MetricValue::Gauge(9.0f64.to_bits()), 1),
        observation(
            "reqs",
            &[("b", "2"), ("a", "1")],
            MetricValue::Counter(2.0f64.to_bits()),
            10,
        ),
        observation(
            "reqs",
            &[("a", "1"), ("b", "2")],
            MetricValue::Counter(3.0f64.to_bits()),
            20,
        ),
    ];
    let req = WriteRequest::from_observations(obs).unwrap();
    assert_eq!(req.timeseries.len(), 2);
    let reqs_series: Vec<&TimeSeries> = req
        .timeseries
        .iter()
        .filter(|t| t.labels.iter().any(|l| l.name == LABEL_NAME && l.value == "reqs"))
        .collect();
    assert_eq!(reqs_series.len(), 1);
    assert_eq!(reqs_series[0].samples.len(), 3);
    // Samples are ordered by timestamp.
    assert_eq!(
        reqs_series[0].samples,
        vec![
            Sample { value_bits: 2.0f64.to_bits(), timestamp: 10 },
            Sample { value_bits: 3.0f64.to_bits(), timestamp: 20 },
            Sample { value_bits: 1.0f64.to_bits(), timestamp: 30 },
        ]
    );
}

#[test]
fn test_ordering_invariant() {
    let obs = vec![
        observation("zeta", &[("m", "1")], MetricValue::Gauge(1.0f64.to_bits()), 5),
        observation("alpha", &[("z", "1"), ("a", "2")], MetricValue::Gauge(2.0f64.to_bits()), 9),
        observation("alpha", &[("a", "2"), ("z", "1")], MetricValue::Gauge(3.0f64.to_bits()), 2),
    ];
    let req = WriteRequest::from_observations(obs).unwrap();
    // Series ascend by metric name.
    let names: Vec<String> = req
        .timeseries
        .iter()
        .map(|t| {
            t.labels.iter().find(|l| l.name == LABEL_NAME).unwrap().value.clone()
        })
        .collect();
    assert_eq!(names, vec!["alpha".to_string(), "zeta".to_string()]);
    for series in &req.timeseries {
        for pair in series.labels.windows(2) {
            assert!(pair[0].name <= pair[1].name);
        }
        for pair in series.samples.windows(2) {
            assert!(pair[0].timestamp <= pair[1].timestamp);
        }
    }
}

#[test]
fn test_reject_histogram() {
    let input = "# TYPE h histogram\nh_bucket{le=\"0.5\"} 100 100\n";
    let err = WriteRequest::from_text_format(input.to_string()).unwrap_err();
    assert!(err.message().contains("histogram not supported yet"));
}

#[test]
fn test_reject_summary() {
    let input = "# TYPE s summary\ns{quantile=\"0.5\"} 100 100\n";
    let err = WriteRequest::from_text_format(input.to_string()).unwrap_err();
    assert!(err.message().contains("summary not supported yet"));
}

#[test]
fn test_reject_reserved_label() {
    let input = "m{__name__=\"other\"} 1 1\n";
    let err = WriteRequest::from_text_format(input.to_string()).unwrap_err();
    assert!(err.message().contains("reserved"));
}

#[test]
fn test_from_observations_errors() {
    let histogram = vec![observation("h", &[], MetricValue::Histogram, 0)];
    assert!(matches!(
        WriteRequest::from_observations(histogram),
        Err(ParseError::HistogramNotSupported)
    ));

    let summary = vec![observation("s", &[], MetricValue::Summary, 0)];
    assert!(matches!(
        WriteRequest::from_observations(summary),
        Err(ParseError::SummaryNotSupported)
    ));

    let reserved = vec![observation(
        "m",
        &[("__name__", "other")],
        MetricValue::Gauge(1.0f64.to_bits()),
        0,
    )];
    assert!(matches!(
        WriteRequest::from_observations(reserved),
        Err(ParseError::ReservedLabelName)
    ));

    // The first offending observation names the error.
    let both = vec![
        observation("ok", &[], MetricValue::Gauge(1.0f64.to_bits()), 0),
        observation("s", &[], MetricValue::Summary, 0),
        observation("h", &[], MetricValue::Histogram, 0),
    ];
    assert!(matches!(
        WriteRequest::from_observations(both),
        Err(ParseError::SummaryNotSupported)
    ));
}

#[test]
fn test_canonicalization_idempotent() {
    let input = "b 2 20\na{x=\"1\"} 1 10\na{x=\"1\"} 3 5\n";
    let req = WriteRequest::from_text_format(input.to_string()).unwrap();
    let once = req.clone().sorted();
    let twice = req.clone().sorted().sorted();
    assert_eq!(once, twice);
    assert_eq!(once.clone().encode_proto3(), twice.clone().encode_proto3());
}

#[test]
fn test_encoding_deterministic() {
    let input = "b 2 20\na{x=\"1\"} 1 10\n";
    let req = WriteRequest::from_text_format(input.to_string()).unwrap();
    let first = req.clone().encode_compressed().unwrap();
    let second = req.clone().encode_compressed().unwrap();
    assert_eq!(first, second);
}

#[test]
fn test_encode_exact_bytes() {
    let req = WriteRequest {
        timeseries: vec![TimeSeries {
            labels: vec![label(LABEL_NAME, "a")],
            samples: vec![Sample { value_bits: 1.0f64.to_bits(), timestamp: 1000 }],
        }],
    };
    let mut expected: Vec<u8> = Vec::new();
    // Series message under field 1.
    expected.extend_from_slice(&[0x0a, 29]);
    // Label message under field 1: name and value as string fields.
    expected.extend_from_slice(&[0x0a, 13]);
    expected.extend_from_slice(&[0x0a, 8]);
    expected.extend_from_slice(b"__name__");
    expected.extend_from_slice(&[0x12, 1]);
    expected.extend_from_slice(b"a");
    // Sample message under field 2: fixed64 double, varint timestamp.
    expected.extend_from_slice(&[0x12, 12, 0x09]);
    expected.extend_from_slice(&1.0f64.to_le_bytes());
    expected.extend_from_slice(&[0x10, 0xe8, 0x07]);
    assert_eq!(req.encode_proto3(), expected);
}

#[test]
fn test_encode_skips_protobuf_defaults() {
    // A zero double and a zero timestamp are omitted, as proto3
    // encoders do: the sample message is empty.
    let req = WriteRequest {
        timeseries: vec![TimeSeries {
            labels: Vec::new(),
            samples: vec![Sample { value_bits: 0, timestamp: 0 }],
        }],
    };
    assert_eq!(req.encode_proto3(), vec![0x0a, 2, 0x12, 0]);
}

#[test]
fn test_compression_round_trip() {
    let input = "b 2 20\na{x=\"1\"} 1 10\n";
    let req = WriteRequest::from_text_format(input.to_string()).unwrap();
    let raw = req.clone().encode_proto3();
    let compressed = req.encode_compressed().unwrap();
    let decompressed = snap::raw::Decoder::new().decompress_vec(&compressed).unwrap();
    assert_eq!(decompressed, raw);
}

#[test]
fn test_build_http_request_envelope() {
    let req = WriteRequest {
        timeseries: vec![TimeSeries {
            labels: vec![label(LABEL_NAME, "a")],
            samples: vec![Sample { value_bits: 1.0f64.to_bits(), timestamp: 1000 }],
        }],
    };
    let body = req.clone().encode_compressed().unwrap();
    let hreq = req.build_http_request("http://localhost:9090/api/v1/write", "prom-write/0.1.0")
        .unwrap();
    assert_eq!(hreq.method, "POST");
    assert_eq!(hreq.url, "http://localhost:9090/api/v1/write");
    assert_eq!(
        hreq.headers,
        vec![
            ("content-type".to_string(), "application/x-protobuf".to_string()),
            ("x-prometheus-remote-write-version".to_string(), "0.1.0".to_string()),
            ("content-encoding".to_string(), "snappy".to_string()),
            ("user-agent".to_string(), "prom-write/0.1.0".to_string()),
        ]
    );
    assert_eq!(hreq.body, body);
}

#[test]
fn test_sort_labels_and_samples() {
    let mut series = TimeSeries {
        labels: vec![label("z", "1"), label("a", "2"), label(LABEL_NAME, "m")],
        samples: vec![
            Sample { value_bits: 1, timestamp: 30 },
            Sample { value_bits: 2, timestamp: 10 },
            Sample { value_bits: 3, timestamp: 20 },
        ],
    };
    series.sort_labels_and_samples();
    assert_eq!(
        series.labels,
        vec![label(LABEL_NAME, "m"), label("a", "2"), label("z", "1")]
    );
    assert_eq!(
        series.samples,
        vec![
            Sample { value_bits: 2, timestamp: 10 },
            Sample { value_bits: 3, timestamp: 20 },
            Sample { value_bits: 1, timestamp: 30 },
        ]
    );
}

#[test]
fn test_sample_sort_is_stable() {
    let mut series = TimeSeries {
        labels: vec![label(LABEL_NAME, "m")],
        samples: vec![
            Sample { value_bits: 1, timestamp: 5 },
            Sample { value_bits: 2, timestamp: 5 },
            Sample { value_bits: 3, timestamp: 1 },
        ],
    };
    series.sort_labels_and_samples();
    assert_eq!(
        series.samples,
        vec![
            Sample { value_bits: 3, timestamp: 1 },
            Sample { value_bits: 1, timestamp: 5 },
            Sample { value_bits: 2, timestamp: 5 },
        ]
    );
}

#[test]
fn test_error_messages() {
    assert!(ParseError::HistogramNotSupported.message().contains("histogram"));
    assert!(ParseError::SummaryNotSupported.message().contains("summary"));
    assert!(ParseError::ReservedLabelName.message().contains("__name__"));
    assert_eq!(ParseError::Syntax("bad input".to_string()).message(), "bad input");
}
