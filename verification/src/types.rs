//! The data model: labels, samples, time series and write requests,
//! together with their mathematical views.

use vstd::prelude::*;

verus! {

/// Reserved label name under which a series stores its metric name.
pub const LABEL_NAME: &'static str = "__name__";

/// Content type of the encoded payload.
pub const CONTENT_TYPE: &'static str = "application/x-protobuf";

/// Header carrying the remote-write protocol version.
pub const HEADER_NAME_REMOTE_WRITE_VERSION: &'static str = "X-Prometheus-Remote-Write-Version";

/// The protocol version this library speaks.
pub const REMOTE_WRITE_VERSION_01: &'static str = "0.1.0";

/// A label: a name/value pair of text.
#[derive(Debug)]
pub struct Label {
    pub name: String,
    pub value: String,
}

/// A sample: a value (as the bit pattern of an IEEE-754 double, which is
/// exactly what the wire format carries) and a millisecond timestamp.
#[derive(Clone, Copy, PartialEq, Eq, Structural, Debug)]
pub struct Sample {
    pub value_bits: u64,
    pub timestamp: i64,
}

/// A time series: a set of labels and the samples observed for them.
#[derive(Debug)]
pub struct TimeSeries {
    pub labels: Vec<Label>,
    pub samples: Vec<Sample>,
}

/// A write request: an ordered collection of time series.
#[derive(Debug)]
pub struct WriteRequest {
    pub timeseries: Vec<TimeSeries>,
}

/// Mathematical view of a label.
pub struct LabelModel {
    pub name: Seq<char>,
    pub value: Seq<char>,
}

/// Mathematical view of a time series.
pub struct SeriesModel {
    pub labels: Seq<LabelModel>,
    pub samples: Seq<Sample>,
}

/// Mathematical view of a write request.
pub struct RequestModel {
    pub timeseries: Seq<SeriesModel>,
}

impl View for Label {
    type V = LabelModel;

    open spec fn view(&self) -> LabelModel {
        LabelModel { name: self.name@, value: self.value@ }
    }
}

impl View for TimeSeries {
    type V = SeriesModel;

    open spec fn view(&self) -> SeriesModel {
        SeriesModel {
            labels: self.labels@.map_values(|l: Label| l@),
            samples: self.samples@,
        }
    }
}

impl View for WriteRequest {
    type V = RequestModel;

    open spec fn view(&self) -> RequestModel {
        RequestModel { timeseries: self.timeseries@.map_values(|s: TimeSeries| s@) }
    }
}

impl Clone for Label {
    fn clone(&self) -> (r: Self)
        ensures
            r@ == self@,
    {
        Label { name: self.name.clone(), value: self.value.clone() }
    }
}

impl PartialEq for Label {
    fn eq(&self, other: &Self) -> (r: bool) {
        self.name == other.name && self.value == other.value
    }
}

impl vstd::std_specs::cmp::PartialEqSpecImpl for Label {
    open spec fn obeys_eq_spec() -> bool {
        true
    }

    open spec fn eq_spec(&self, other: &Self) -> bool {
        self@ == other@
    }
}

/// Equality of two label lists, as models.
pub(crate) fn labels_eq(a: &Vec<Label>, b: &Vec<Label>) -> (r: bool)
    ensures
        r == (a@.map_values(|l: Label| l@) == b@.map_values(|l: Label| l@)),
{
    let ghost am = a@.map_values(|l: Label| l@);
    let ghost bm = b@.map_values(|l: Label| l@);
    if a.len() != b.len() {
        proof {
            assert(am.len() == a@.len());
            assert(bm.len() == b@.len());
        }
        return false;
    }
    let mut i: usize = 0;
    while i < a.len()
        invariant
            i <= a@.len(),
            a@.len() == b@.len(),
            am == a@.map_values(|l: Label| l@),
            bm == b@.map_values(|l: Label| l@),
            forall|k: int| 0 <= k < i ==> am[k] == bm[k],
        decreases a@.len() - i,
    {
        assert(am[i as int] == a@[i as int]@);
        assert(bm[i as int] == b@[i as int]@);
        if !(a[i] == b[i]) {
            proof {
                if am == bm {
                    assert(am[i as int] == bm[i as int]);
                }
            }
            return false;
        }
        i = i + 1;
    }
    proof {
        assert(am =~= bm);
    }
    true
}

/// Equality of two sample lists.
pub(crate) fn samples_eq(a: &Vec<Sample>, b: &Vec<Sample>) -> (r: bool)
    ensures
        r == (a@ == b@),
{
    if a.len() != b.len() {
        return false;
    }
    let mut i: usize = 0;
    while i < a.len()
        invariant
            i <= a@.len(),
            a@.len() == b@.len(),
            forall|k: int| 0 <= k < i ==> a@[k] == b@[k],
        decreases a@.len() - i,
    {
        if !(a[i] == b[i]) {
            proof {
                if a@ == b@ {
                    assert(a@[i as int] == b@[i as int]);
                }
            }
            return false;
        }
        i = i + 1;
    }
    proof {
        assert(a@ =~= b@);
    }
    true
}

impl Clone for TimeSeries {
    fn clone(&self) -> (r: Self)
        ensures
            r@ == self@,
    {
        let mut labels: Vec<Label> = Vec::new();
        let mut i: usize = 0;
        while i < self.labels.len()
            invariant
                i <= self.labels@.len(),
                labels@.len() == i,
                forall|k: int| 0 <= k < i ==> #[trigger] labels@[k]@ == self.labels@[k]@,
            decreases self.labels@.len() - i,
        {
            labels.push(self.labels[i].clone());
            i = i + 1;
        }
        let mut samples: Vec<Sample> = Vec::new();
        let mut j: usize = 0;
        while j < self.samples.len()
            invariant
                j <= self.samples@.len(),
                samples@ == self.samples@.take(j as int),
            decreases self.samples@.len() - j,
        {
            samples.push(self.samples[j]);
            assert(samples@ =~= self.samples@.take(j as int + 1));
            j = j + 1;
        }
        let r = TimeSeries { labels, samples };
        proof {
            assert(self.samples@.take(self.samples@.len() as int) =~= self.samples@);
            assert(forall|k: int|
                0 <= k < r.labels@.len() ==> r.labels@.map_values(|l: Label| l@)[k]
                    == #[trigger] r.labels@[k]@);
            assert(forall|k: int|
                0 <= k < self.labels@.len() ==> self.labels@.map_values(|l: Label| l@)[k]
                    == #[trigger] self.labels@[k]@);
            assert(r.labels@.map_values(|l: Label| l@) =~= self.labels@.map_values(
                |l: Label| l@,
            ));
        }
        r
    }
}

impl Clone for WriteRequest {
    fn clone(&self) -> (r: Self)
        ensures
            r@ == self@,
    {
        let mut timeseries: Vec<TimeSeries> = Vec::new();
        let mut i: usize = 0;
        while i < self.timeseries.len()
            invariant
                i <= self.timeseries@.len(),
                timeseries@.len() == i,
                forall|k: int|
                    0 <= k < i ==> #[trigger] timeseries@[k]@ == self.timeseries@[k]@,
            decreases self.timeseries@.len() - i,
        {
            timeseries.push(self.timeseries[i].clone());
            i = i + 1;
        }
        let r = WriteRequest { timeseries };
        proof {
            assert(forall|k: int|
                0 <= k < r.timeseries@.len() ==> r.timeseries@.map_values(|t: TimeSeries| t@)[k]
                    == #[trigger] r.timeseries@[k]@);
            assert(forall|k: int|
                0 <= k < self.timeseries@.len() ==> self.timeseries@.map_values(
                    |t: TimeSeries| t@,
                )[k] == #[trigger] self.timeseries@[k]@);
            assert(r.timeseries@.map_values(|t: TimeSeries| t@) =~= self.timeseries@.map_values(
                |t: TimeSeries| t@,
            ));
        }
        r
    }
}

impl PartialEq for TimeSeries {
    fn eq(&self, other: &Self) -> (r: bool) {
        labels_eq(&self.labels, &other.labels) && samples_eq(&self.samples, &other.samples)
    }
}

impl vstd::std_specs::cmp::PartialEqSpecImpl for TimeSeries {
    open spec fn obeys_eq_spec() -> bool {
        true
    }

    open spec fn eq_spec(&self, other: &Self) -> bool {
        self@ == other@
    }
}

impl PartialEq for WriteRequest {
    fn eq(&self, other: &Self) -> (r: bool) {
        let ghost am = self.timeseries@.map_values(|t: TimeSeries| t@);
        let ghost bm = other.timeseries@.map_values(|t: TimeSeries| t@);
        if self.timeseries.len() != other.timeseries.len() {
            proof {
                assert(am.len() == self.timeseries@.len());
                assert(bm.len() == other.timeseries@.len());
            }
            return false;
        }
        let mut i: usize = 0;
        while i < self.timeseries.len()
            invariant
                i <= self.timeseries@.len(),
                self.timeseries@.len() == other.timeseries@.len(),
                am == self.timeseries@.map_values(|t: TimeSeries| t@),
                bm == other.timeseries@.map_values(|t: TimeSeries| t@),
                forall|k: int| 0 <= k < i ==> am[k] == bm[k],
            decreases self.timeseries@.len() - i,
        {
            assert(am[i as int] == self.timeseries@[i as int]@);
            assert(bm[i as int] == other.timeseries@[i as int]@);
            if !(self.timeseries[i] == other.timeseries[i]) {
                proof {
                    if am == bm {
                        assert(am[i as int] == bm[i as int]);
                    }
                }
                return false;
            }
            i = i + 1;
        }
        proof {
            assert(am =~= bm);
        }
        true
    }
}

impl vstd::std_specs::cmp::PartialEqSpecImpl for WriteRequest {
    open spec fn obeys_eq_spec() -> bool {
        true
    }

    open spec fn eq_spec(&self, other: &Self) -> bool {
        self@ == other@
    }
}

} // verus!
