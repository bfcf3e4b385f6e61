//! The series aggregator: raw observations grouped into identity-stable
//! series.
//!
//! Two observations belong to the same series exactly when their metric
//! name and their full label set agree. The identity of an observation is
//! its label list with the synthesized name label added, sorted by name;
//! grouping compares identities, so input order never splits a series.

use vstd::prelude::*;

use crate::canon::label_leq;
use crate::canon::request_canon;
use crate::canon::sort_series;
use crate::sorting::sort_by_insertion;
use crate::types::labels_eq;
use crate::types::Label;
use crate::types::LabelModel;
use crate::types::RequestModel;
use crate::types::Sample;
use crate::types::SeriesModel;
use crate::types::TimeSeries;
use crate::types::WriteRequest;
use crate::order::str_eq;
use vstd::string::StringExecFns;

verus! {

/// A parsed observation value: the supported kinds carry the value as
/// the bit pattern of an IEEE-754 double; the unsupported kinds carry
/// nothing, they are rejected before a sample is formed.
#[derive(Clone, Copy, PartialEq, Eq, Structural, Debug)]
pub enum MetricValue {
    Counter(u64),
    Gauge(u64),
    Untyped(u64),
    Histogram,
    Summary,
}

/// One raw observation: metric name, labels (without the synthesized
/// name label), a typed value, and a millisecond timestamp.
#[derive(Debug)]
pub struct Observation {
    pub metric: String,
    pub labels: Vec<Label>,
    pub value: MetricValue,
    pub timestamp_millis: i64,
}

/// Mathematical view of an observation.
pub struct ObservationModel {
    pub metric: Seq<char>,
    pub labels: Seq<LabelModel>,
    pub value: MetricValue,
    pub timestamp_millis: i64,
}

impl View for Observation {
    type V = ObservationModel;

    open spec fn view(&self) -> ObservationModel {
        ObservationModel {
            metric: self.metric@,
            labels: self.labels@.map_values(|l: Label| l@),
            value: self.value,
            timestamp_millis: self.timestamp_millis,
        }
    }
}

/// Why a batch of observations was rejected.
#[derive(Debug)]
pub enum ParseError {
    /// The text was not valid exposition format; carries the lexer's
    /// description.
    Syntax(String),
    /// An observation carried a histogram value.
    HistogramNotSupported,
    /// An observation carried a summary value.
    SummaryNotSupported,
    /// An observation supplied the reserved `__name__` label itself.
    ReservedLabelName,
}

impl ParseError {
    /// The message of this error, as a view.
    pub open spec fn message_spec(&self) -> Seq<char> {
        match self {
            ParseError::Syntax(m) => m@,
            ParseError::HistogramNotSupported => "histogram not supported yet"@,
            ParseError::SummaryNotSupported => "summary not supported yet"@,
            ParseError::ReservedLabelName => "label name '__name__' is reserved"@,
        }
    }

    /// A human-readable description of the failure.
    pub fn message(&self) -> (r: String)
        ensures
            r@ == self.message_spec(),
    {
        match self {
            ParseError::Syntax(m) => m.clone(),
            ParseError::HistogramNotSupported => String::from_str("histogram not supported yet"),
            ParseError::SummaryNotSupported => String::from_str("summary not supported yet"),
            ParseError::ReservedLabelName => String::from_str(
                "label name '__name__' is reserved",
            ),
        }
    }
}

/// The double bits a value contributes to its sample.
pub open spec fn value_bits_of(v: MetricValue) -> u64 {
    match v {
        MetricValue::Counter(b) => b,
        MetricValue::Gauge(b) => b,
        MetricValue::Untyped(b) => b,
        MetricValue::Histogram => 0,
        MetricValue::Summary => 0,
    }
}

/// The kinds an observation may carry into a request.
pub open spec fn value_supported(v: MetricValue) -> bool {
    !(v is Histogram || v is Summary)
}

/// Whether the observation's label names are pairwise distinct.
pub open spec fn obs_labels_distinct(o: ObservationModel) -> bool {
    forall|i: int, j: int| 0 <= i < j < o.labels.len() ==> o.labels[i].name != o.labels[j].name
}

/// Whether the observation supplies the reserved name label itself.
pub open spec fn has_reserved_label(o: ObservationModel) -> bool {
    exists|i: int| 0 <= i < o.labels.len() && o.labels[i].name == "__name__"@
}

/// What is wrong with one observation, if anything.
pub open spec fn obs_error(o: ObservationModel) -> Option<ParseError> {
    if o.value is Histogram {
        Some(ParseError::HistogramNotSupported)
    } else if o.value is Summary {
        Some(ParseError::SummaryNotSupported)
    } else if has_reserved_label(o) {
        Some(ParseError::ReservedLabelName)
    } else {
        None
    }
}

/// The first error in a batch of observations, if any.
pub open spec fn first_obs_error(obs: Seq<ObservationModel>) -> Option<ParseError>
    decreases obs.len(),
{
    if obs.len() == 0 {
        None
    } else if obs_error(obs[0]) is Some {
        obs_error(obs[0])
    } else {
        first_obs_error(obs.drop_first())
    }
}

/// Every error a batch yields is one of the three rejections.
pub proof fn lemma_first_obs_error_variant(obs: Seq<ObservationModel>)
    ensures
        first_obs_error(obs) matches Some(e) ==> (e is HistogramNotSupported
            || e is SummaryNotSupported || e is ReservedLabelName),
    decreases obs.len(),
{
    if obs.len() > 0 && obs_error(obs[0]) is None {
        lemma_first_obs_error_variant(obs.drop_first());
    }
}

/// The identity of an observation: its labels with the name label added,
/// sorted by name.
pub open spec fn obs_identity(o: ObservationModel) -> Seq<LabelModel> {
    sort_by_insertion(
        label_leq(),
        o.labels.push(LabelModel { name: "__name__"@, value: o.metric }),
    )
}

/// The sample an observation contributes.
pub open spec fn obs_sample(o: ObservationModel) -> Sample {
    Sample { value_bits: value_bits_of(o.value), timestamp: o.timestamp_millis }
}

/// The index of the first series with these labels, or -1.
pub open spec fn find_series(acc: Seq<SeriesModel>, id: Seq<LabelModel>) -> int
    decreases acc.len(),
{
    if acc.len() == 0 {
        -1
    } else if acc[0].labels == id {
        0
    } else {
        let r = find_series(acc.drop_first(), id);
        if r == -1 {
            -1
        } else {
            r + 1
        }
    }
}

/// One observation merged into the series built so far: its sample is
/// appended to the series with its identity, or a new series is opened.
pub open spec fn add_obs(acc: Seq<SeriesModel>, o: ObservationModel) -> Seq<SeriesModel> {
    let id = obs_identity(o);
    let k = find_series(acc, id);
    if k == -1 {
        acc.push(SeriesModel { labels: id, samples: seq![obs_sample(o)] })
    } else {
        acc.update(k, SeriesModel { labels: acc[k].labels, samples: acc[k].samples.push(obs_sample(o)) })
    }
}

/// All observations grouped into series, in order of first occurrence.
pub open spec fn group_obs(obs: Seq<ObservationModel>) -> Seq<SeriesModel>
    decreases obs.len(),
{
    if obs.len() == 0 {
        Seq::empty()
    } else {
        add_obs(group_obs(obs.drop_last()), obs.last())
    }
}

/// `find_series` returns the first index whose labels match.
proof fn lemma_find_series_at(acc: Seq<SeriesModel>, id: Seq<LabelModel>, k: int)
    requires
        0 <= k <= acc.len(),
        forall|j: int| 0 <= j < k ==> acc[j].labels != id,
        k < acc.len() ==> acc[k].labels == id,
    ensures
        find_series(acc, id) == if k == acc.len() {
            -1int
        } else {
            k
        },
    decreases k,
{
    if k == 0 {
    } else {
        lemma_find_series_at(acc.drop_first(), id, k - 1);
    }
}

/// A clean prefix puts the first error at the first offending index.
proof fn lemma_first_obs_error_at(obs: Seq<ObservationModel>, i: int)
    requires
        0 <= i < obs.len(),
        first_obs_error(obs.take(i)) is None,
        obs_error(obs[i]) is Some,
    ensures
        first_obs_error(obs) == obs_error(obs[i]),
    decreases i,
{
    if i == 0 {
    } else {
        assert(obs.take(i)[0] == obs[0]);
        assert(obs_error(obs[0]) is None) by {
            if obs_error(obs.take(i)[0]) is Some {
            }
        }
        assert(obs.drop_first().take(i - 1) =~= obs.take(i).drop_first());
        lemma_first_obs_error_at(obs.drop_first(), i - 1);
    }
}

/// A clean step keeps the prefix clean.
proof fn lemma_first_obs_error_step(obs: Seq<ObservationModel>, i: int)
    requires
        0 <= i < obs.len(),
        first_obs_error(obs.take(i)) is None,
        obs_error(obs[i]) is None,
    ensures
        first_obs_error(obs.take(i + 1)) is None,
    decreases i,
{
    if i == 0 {
        assert(obs.take(1)[0] == obs[0]);
        assert(obs.take(1).drop_first().len() == 0);
    } else {
        assert(obs.take(i)[0] == obs[0]);
        assert(obs_error(obs[0]) is None) by {
            if obs_error(obs.take(i)[0]) is Some {
            }
        }
        assert(obs.drop_first().take(i - 1) =~= obs.take(i).drop_first());
        assert(obs.drop_first().take(i) =~= obs.take(i + 1).drop_first());
        lemma_first_obs_error_step(obs.drop_first(), i - 1);
        assert(obs.take(i + 1)[0] == obs[0]);
    }
}

/// The double bits of a supported value.
fn value_bits(v: &MetricValue) -> (r: u64)
    ensures
        r == value_bits_of(*v),
{
    match v {
        MetricValue::Counter(b) => *b,
        MetricValue::Gauge(b) => *b,
        MetricValue::Untyped(b) => *b,
        MetricValue::Histogram => 0,
        MetricValue::Summary => 0,
    }
}

impl WriteRequest {
    /// Group a batch of observations into a canonical write request.
    ///
    /// Succeeds exactly when no observation carries an unsupported kind
    /// (histogram or summary) or supplies the reserved `__name__` label
    /// itself; the first offending observation names the error. On
    /// success the result is the canonical form of the grouped series.
    #[verifier::loop_isolation(false)]
    pub fn from_observations(observations: Vec<Observation>) -> (r: Result<WriteRequest, ParseError>)
        ensures
            (r is Ok) == (first_obs_error(observations@.map_values(|o: Observation| o@))
                is None),
            r matches Err(e) ==> Some(e) == first_obs_error(
                observations@.map_values(|o: Observation| o@),
            ),
            r matches Ok(req) ==> req@ == request_canon(
                RequestModel {
                    timeseries: group_obs(observations@.map_values(|o: Observation| o@)),
                },
            ),
            r matches Ok(req) ==> crate::laws::request_is_canonical(req@),
    {
        let ghost models = observations@.map_values(|o: Observation| o@);
        let mut series: Vec<TimeSeries> = Vec::new();
        let mut idx: usize = 0;
        proof {
            assert(models.take(0).len() == 0);
            assert(series@.map_values(|t: TimeSeries| t@) =~= group_obs(models.take(0)));
        }
        while idx < observations.len()
            invariant
                idx <= observations@.len(),
                models == observations@.map_values(|o: Observation| o@),
                first_obs_error(models.take(idx as int)) is None,
                series@.map_values(|t: TimeSeries| t@) == group_obs(models.take(idx as int)),
            decreases observations@.len() - idx,
        {
            let o = &observations[idx];
            proof {
                assert(models[idx as int] == observations@[idx as int]@);
            }
            let ghost om = models[idx as int];
            // Reject unsupported kinds, then the reserved label.
            match o.value {
                MetricValue::Histogram => {
                    proof {
                        lemma_first_obs_error_at(models, idx as int);
                    }
                    return Err(ParseError::HistogramNotSupported);
                },
                MetricValue::Summary => {
                    proof {
                        lemma_first_obs_error_at(models, idx as int);
                    }
                    return Err(ParseError::SummaryNotSupported);
                },
                _ => {},
            }
            let mut j: usize = 0;
            while j < o.labels.len()
                invariant
                    j <= o.labels@.len(),
                    o@ == om,
                    forall|k: int| 0 <= k < j ==> om.labels[k].name != "__name__"@,
                decreases o.labels@.len() - j,
            {
                assert(om.labels[j as int] == o.labels@[j as int]@);
                if str_eq(o.labels[j].name.as_str(), "__name__") {
                    proof {
                        lemma_first_obs_error_at(models, idx as int);
                    }
                    return Err(ParseError::ReservedLabelName);
                }
                j = j + 1;
            }
            proof {
                assert(!has_reserved_label(om));
                assert(obs_error(om) is None);
            }
            // Build the identity: labels plus the name label, sorted.
            let mut ls: Vec<Label> = Vec::new();
            let mut j2: usize = 0;
            while j2 < o.labels.len()
                invariant
                    j2 <= o.labels@.len(),
                    o@ == om,
                    ls@.map_values(|l: Label| l@) == om.labels.take(j2 as int),
                decreases o.labels@.len() - j2,
            {
                ls.push(o.labels[j2].clone());
                proof {
                    assert(om.labels[j2 as int] == o.labels@[j2 as int]@);
                    assert(forall|n: int|
                        0 <= n < ls@.len() ==> ls@.map_values(|l: Label| l@)[n]
                            == #[trigger] ls@[n]@);
                    assert(ls@.map_values(|l: Label| l@) =~= om.labels.take(j2 as int + 1));
                }
                j2 = j2 + 1;
            }
            ls.push(Label { name: String::from_str("__name__"), value: o.metric.clone() });
            proof {
                assert(om.labels.take(om.labels.len() as int) =~= om.labels);
                assert(ls@.map_values(|l: Label| l@) =~= om.labels.push(
                    LabelModel { name: "__name__"@, value: om.metric },
                ));
            }
            crate::canon::sort_labels(&mut ls);
            let ghost id = obs_identity(om);
            proof {
                assert(ls@.map_values(|l: Label| l@) == id);
            }
            let sample = Sample { value_bits: value_bits(&o.value), timestamp: o.timestamp_millis };
            proof {
                assert(sample == obs_sample(om));
            }
            // Find the series with this identity, or open a new one.
            let ghost acc = series@.map_values(|t: TimeSeries| t@);
            let mut k: usize = 0;
            let mut found = false;
            while k < series.len() && !found
                invariant
                    k <= series@.len(),
                    forall|j3: int| 0 <= j3 < k ==> acc[j3].labels != id,
                    found ==> k < series@.len() && acc[k as int].labels == id,
                decreases series@.len() - k, (if found { 0int } else { 1int }),
            {
                assert(acc[k as int] == series@[k as int]@);
                if labels_eq(&series[k].labels, &ls) {
                    found = true;
                } else {
                    k = k + 1;
                }
            }
            proof {
                if found {
                    lemma_find_series_at(acc, id, k as int);
                } else {
                    lemma_find_series_at(acc, id, acc.len() as int);
                }
            }
            if found {
                let mut ts = series.remove(k);
                ts.samples.push(sample);
                let ghost tsm = ts@;
                series.insert(k, ts);
                proof {
                    assert(series@.map_values(|t: TimeSeries| t@) =~= add_obs(acc, om)) by {
                        assert(forall|n: int|
                            0 <= n < series@.len() ==> series@.map_values(|t: TimeSeries| t@)[n]
                                == #[trigger] series@[n]@);
                        assert(tsm.labels =~= acc[k as int].labels);
                        assert(tsm.samples =~= acc[k as int].samples.push(sample));
                    }
                }
            } else {
                let mut samples: Vec<Sample> = Vec::new();
                samples.push(sample);
                series.push(TimeSeries { labels: ls, samples });
                proof {
                    assert(series@.map_values(|t: TimeSeries| t@) =~= add_obs(acc, om)) by {
                        assert(forall|n: int|
                            0 <= n < series@.len() ==> series@.map_values(|t: TimeSeries| t@)[n]
                                == #[trigger] series@[n]@);
                    }
                }
            }
            proof {
                lemma_first_obs_error_step(models, idx as int);
                assert(models.take(idx as int + 1).drop_last() =~= models.take(idx as int));
                assert(models.take(idx as int + 1).last() == om);
            }
            idx = idx + 1;
        }
        proof {
            assert(models.take(models.len() as int) =~= models);
        }
        let mut req = WriteRequest { timeseries: series };
        req.sort();
        sort_series(&mut req.timeseries);
        proof {
            assert(req@ =~= request_canon(RequestModel { timeseries: group_obs(models) }));
            crate::laws::lemma_request_canon_is_canonical(
                RequestModel { timeseries: group_obs(models) },
            );
        }
        Ok(req)
    }
}

} // verus!
