//! The exposition parser adapter: a thin wrapper over the external lexer,
//! projecting lexed samples into plain observations. All rejection and
//! grouping logic lives in [`crate::observe`], verified.

use vstd::prelude::*;

use crate::canon::request_canon;
use crate::observe::first_obs_error;
use crate::observe::obs_labels_distinct;
use crate::observe::group_obs;
use crate::observe::MetricValue;
use crate::observe::Observation;
use crate::observe::ObservationModel;
use crate::observe::ParseError;
use crate::types::Label;
use crate::types::RequestModel;
use crate::types::WriteRequest;

verus! {

#[verifier::external_type_specification]
#[verifier::external_body]
pub struct ExScrape(prometheus_parse::Scrape);

#[verifier::external_type_specification]
#[verifier::external_body]
pub struct ExValue(prometheus_parse::Value);

/// Relies on prometheus_parse::Scrape::parse: the exposition-format
/// lexer. Lines without a timestamp are stamped with the current time,
/// so the result is not a function of the text alone. It always
/// succeeds: the lexer fails only when its line iterator does, which
/// this one never does; lines it cannot lex are silently dropped. The
/// error arm stays for a lexer version that can fail.
#[verifier::external_body]
fn scrape_text(text: &str) -> (r: Result<prometheus_parse::Scrape, String>)
    ensures
        r is Ok,
{
    let iter = text.lines().map(|x| Ok(x.to_string()));
    match prometheus_parse::Scrape::parse(iter) {
        Ok(s) => Ok(s),
        Err(e) => Err(format!("could not parse input as Prometheus text format: {}", e)),
    }
}

/// Relies on the public fields of prometheus_parse::Sample and on
/// chrono's DateTime::timestamp_millis: converts each lexed sample to
/// its plain parts (metric name, labels, value, millisecond timestamp).
/// Label names within one sample are distinct because the lexer keeps
/// labels in a map.
#[verifier::external_body]
fn scrape_parts(s: prometheus_parse::Scrape) -> (r: Vec<
    (String, Vec<Label>, prometheus_parse::Value, i64),
>)
    ensures
        forall|k: int, i: int, j: int|
            0 <= k < r@.len() && 0 <= i < j < r@[k].1@.len() ==> r@[k].1@[i]@.name
                != r@[k].1@[j]@.name,
{
    let mut out: Vec<(String, Vec<Label>, prometheus_parse::Value, i64)> = Vec::new();
    for sample in s.samples {
        let mut labels: Vec<Label> = Vec::new();
        for (k, v) in sample.labels.iter() {
            labels.push(Label { name: k.clone(), value: v.clone() });
        }
        let millis = sample.timestamp.timestamp_millis();
        out.push((sample.metric, labels, sample.value, millis));
    }
    out
}

/// Relies on the variants of prometheus_parse::Value: maps each to the
/// library's value kind, one arm at a time, doubles as their bit
/// patterns.
#[verifier::external_body]
fn metric_value_of(v: &prometheus_parse::Value) -> (r: MetricValue)
{
    match v {
        prometheus_parse::Value::Counter(x) => MetricValue::Counter(x.to_bits()),
        prometheus_parse::Value::Gauge(x) => MetricValue::Gauge(x.to_bits()),
        prometheus_parse::Value::Histogram(_) => MetricValue::Histogram,
        prometheus_parse::Value::Summary(_) => MetricValue::Summary,
        prometheus_parse::Value::Untyped(x) => MetricValue::Untyped(x.to_bits()),
    }
}

impl WriteRequest {
    /// Parse metrics from the Prometheus text format, and convert them
    /// into a canonical write request.
    ///
    /// Whatever the lexer hands back, the result is the canonical form
    /// of some batch of observations with per-observation distinct
    /// label names that passed every check of
    /// [`WriteRequest::from_observations`]; an error is one of that
    /// function's rejections.
    pub fn from_text_format(text: String) -> (r: Result<WriteRequest, ParseError>)
        ensures
            r matches Ok(req) ==> exists|obs: Seq<ObservationModel>|
                first_obs_error(obs) is None && (forall|k: int|
                    0 <= k < obs.len() ==> obs_labels_distinct(#[trigger] obs[k])) && req@
                    == request_canon(RequestModel { timeseries: group_obs(obs) }),
            r matches Ok(req) ==> crate::laws::request_is_canonical(req@),
            r matches Ok(req) ==> forall|i: int|
                0 <= i < req@.timeseries.len() ==> crate::laws::series_labels_wf(
                    #[trigger] req@.timeseries[i].labels,
                ),
            r matches Err(e) ==> (e is HistogramNotSupported || e is SummaryNotSupported
                || e is ReservedLabelName),
            r matches Err(e) ==> exists|obs: Seq<ObservationModel>|
                first_obs_error(obs) == Some(e),
    {
        let trimmed_text = crate::cli::str_trim(text.as_str());
        let scrape = match scrape_text(trimmed_text.as_str()) {
            Ok(s) => s,
            Err(m) => {
                return Err(ParseError::Syntax(m));
            },
        };
        let mut parts = scrape_parts(scrape);
        let mut observations: Vec<Observation> = Vec::new();
        while parts.len() > 0
            invariant
                forall|k: int|
                    0 <= k < observations@.len() ==> obs_labels_distinct(
                        #[trigger] observations@[k]@,
                    ),
                forall|k: int, i: int, j: int|
                    0 <= k < parts@.len() && 0 <= i < j < parts@[k].1@.len() ==> parts@[k].1@[i]@
                        .name != parts@[k].1@[j]@.name,
            decreases parts@.len(),
        {
            let ghost parts0 = parts@;
            let (metric, labels, pv, timestamp_millis) = parts.remove(0);
            proof {
                assert(forall|k: int|
                    0 <= k < parts@.len() ==> #[trigger] parts@[k] == parts0[k + 1]);
            }
            let value = metric_value_of(&pv);
            let o = Observation { metric, labels, value, timestamp_millis };
            proof {
                assert(obs_labels_distinct(o@)) by {
                    assert(forall|i: int|
                        0 <= i < o.labels@.len() ==> o@.labels[i] == #[trigger] o.labels@[i]@);
                }
            }
            observations.push(o);
        }
        let r = WriteRequest::from_observations(observations);
        proof {
            let ghost witness = observations@.map_values(|o: Observation| o@);
            assert(forall|k: int|
                0 <= k < witness.len() ==> obs_labels_distinct(#[trigger] witness[k])) by {
                assert(forall|k: int|
                    0 <= k < observations@.len() ==> witness[k]
                        == #[trigger] observations@[k]@);
            }
            if r is Ok {
                assert(first_obs_error(witness) is None && r->Ok_0@ == request_canon(
                    RequestModel { timeseries: group_obs(witness) },
                ));
                crate::laws::lemma_series_label_names_wf(witness);
            } else {
                assert(first_obs_error(witness) == Some(r->Err_0));
                crate::observe::lemma_first_obs_error_variant(witness);
            }
        }
        r
    }
}

} // verus!
