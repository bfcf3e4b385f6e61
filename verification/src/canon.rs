//! Canonicalization: the orderings the remote-write protocol demands.
//!
//! Within a series, labels are sorted ascending by name (byte-wise) and
//! samples ascending by timestamp; the series list itself is sorted
//! ascending by the value of the reserved name label. All sorts are
//! stable, so canonicalization is idempotent.

use vstd::prelude::*;

use crate::order::lemma_lex_le_total;
use crate::order::lemma_lex_le_trans;
use crate::order::str_le;
use crate::order::str_le_spec;
use crate::order::str_eq;
use crate::sorting::insert_by;
use crate::sorting::lemma_insert_by_at;
use crate::sorting::sort_by_insertion;
use crate::types::Label;
use crate::types::LabelModel;
use crate::types::RequestModel;
use crate::types::Sample;
use crate::types::SeriesModel;
use crate::types::TimeSeries;
use crate::types::WriteRequest;

verus! {

/// Order on labels: byte-wise by name.
pub open spec fn label_leq() -> spec_fn(LabelModel, LabelModel) -> bool {
    |a: LabelModel, b: LabelModel| str_le_spec(a.name, b.name)
}

/// Order on samples: by timestamp.
pub open spec fn sample_leq() -> spec_fn(Sample, Sample) -> bool {
    |a: Sample, b: Sample| a.timestamp <= b.timestamp
}

/// The value of the first label named `__name__`, or the empty string if
/// there is none.
pub open spec fn name_value_of(ls: Seq<LabelModel>) -> Seq<char>
    decreases ls.len(),
{
    if ls.len() == 0 {
        Seq::empty()
    } else if ls[0].name == "__name__"@ {
        ls[0].value
    } else {
        name_value_of(ls.drop_first())
    }
}

/// The metric name a series is sorted under.
pub open spec fn series_name(s: SeriesModel) -> Seq<char> {
    name_value_of(s.labels)
}

/// Order on series: byte-wise by metric name.
pub open spec fn series_leq() -> spec_fn(SeriesModel, SeriesModel) -> bool {
    |a: SeriesModel, b: SeriesModel| str_le_spec(series_name(a), series_name(b))
}

/// A series with its labels and samples in canonical order.
pub open spec fn canon_series(s: SeriesModel) -> SeriesModel {
    SeriesModel {
        labels: sort_by_insertion(label_leq(), s.labels),
        samples: sort_by_insertion(sample_leq(), s.samples),
    }
}

/// A request with every series brought into canonical internal order
/// (what [`WriteRequest::sort`] does; the series list keeps its order).
pub open spec fn within_canon(r: RequestModel) -> RequestModel {
    RequestModel { timeseries: r.timeseries.map_values(|s: SeriesModel| canon_series(s)) }
}

/// The fully canonical form: internal order of every series, then the
/// series sorted by metric name.
pub open spec fn request_canon(r: RequestModel) -> RequestModel {
    RequestModel {
        timeseries: sort_by_insertion(series_leq(), within_canon(r).timeseries),
    }
}

pub proof fn lemma_label_leq_properties()
    ensures
        vstd::relations::strongly_connected(label_leq()),
        vstd::relations::transitive(label_leq()),
{
    assert forall|a: LabelModel, b: LabelModel| #[trigger]
        label_leq()(a, b) || label_leq()(b, a) by {
        lemma_lex_le_total(vstd::utf8::encode_utf8(a.name), vstd::utf8::encode_utf8(b.name));
    }
    assert forall|a: LabelModel, b: LabelModel, c: LabelModel|
        #[trigger] label_leq()(a, b) && #[trigger] label_leq()(b, c) implies label_leq()(
        a,
        c,
    ) by {
        lemma_lex_le_trans(
            vstd::utf8::encode_utf8(a.name),
            vstd::utf8::encode_utf8(b.name),
            vstd::utf8::encode_utf8(c.name),
        );
    }
}

pub proof fn lemma_sample_leq_properties()
    ensures
        vstd::relations::strongly_connected(sample_leq()),
        vstd::relations::transitive(sample_leq()),
{
}

pub proof fn lemma_series_leq_properties()
    ensures
        vstd::relations::strongly_connected(series_leq()),
        vstd::relations::transitive(series_leq()),
{
    assert forall|a: SeriesModel, b: SeriesModel| #[trigger]
        series_leq()(a, b) || series_leq()(b, a) by {
        lemma_lex_le_total(
            vstd::utf8::encode_utf8(series_name(a)),
            vstd::utf8::encode_utf8(series_name(b)),
        );
    }
    assert forall|a: SeriesModel, b: SeriesModel, c: SeriesModel|
        #[trigger] series_leq()(a, b) && #[trigger] series_leq()(b, c) implies series_leq()(
        a,
        c,
    ) by {
        lemma_lex_le_trans(
            vstd::utf8::encode_utf8(series_name(a)),
            vstd::utf8::encode_utf8(series_name(b)),
            vstd::utf8::encode_utf8(series_name(c)),
        );
    }
}

/// Exec comparison of two labels.
fn label_le(a: &Label, b: &Label) -> (r: bool)
    ensures
        r == label_leq()(a@, b@),
{
    str_le(a.name.as_str(), b.name.as_str())
}

/// Insert a label into a sorted vector, in front of its equals.
fn insert_label(v: &mut Vec<Label>, x: Label)
    ensures
        final(v)@.map_values(|l: Label| l@) == insert_by(
            label_leq(),
            x@,
            old(v)@.map_values(|l: Label| l@),
        ),
{
    let ghost m = v@.map_values(|l: Label| l@);
    let mut j: usize = 0;
    loop
        invariant
            j <= v@.len(),
            v@.map_values(|l: Label| l@) == m,
            forall|k: int| 0 <= k < j ==> !label_leq()(x@, m[k]),
        ensures
            j <= v@.len(),
            v@.map_values(|l: Label| l@) == m,
            forall|k: int| 0 <= k < j ==> !label_leq()(x@, m[k]),
            j < v@.len() ==> label_leq()(x@, m[j as int]),
        decreases v@.len() - j,
    {
        if j >= v.len() {
            break;
        }
        if label_le(&x, &v[j]) {
            assert(m[j as int] == v@[j as int]@);
            break;
        }
        assert(m[j as int] == v@[j as int]@);
        j = j + 1;
    }
    proof {
        lemma_insert_by_at(label_leq(), x@, m, j as int);
    }
    v.insert(j, x);
    assert(v@.map_values(|l: Label| l@) =~= m.take(j as int) + seq![x@] + m.skip(j as int));
}

/// Sort labels by name, stably.
pub(crate) fn sort_labels(v: &mut Vec<Label>)
    ensures
        final(v)@.map_values(|l: Label| l@) == sort_by_insertion(
            label_leq(),
            old(v)@.map_values(|l: Label| l@),
        ),
{
    let ghost m = v@.map_values(|l: Label| l@);
    let mut out: Vec<Label> = Vec::new();
    proof {
        assert(out@.map_values(|l: Label| l@) =~= sort_by_insertion(
            label_leq(),
            m.skip(v@.len() as int),
        ));
    }
    while v.len() > 0
        invariant
            v@.map_values(|l: Label| l@) == m.take(v@.len() as int),
            v@.len() <= m.len(),
            out@.map_values(|l: Label| l@) == sort_by_insertion(
                label_leq(),
                m.skip(v@.len() as int),
            ),
        decreases v@.len(),
    {
        let ghost k = v@.len() as int;
        let x = v.pop().unwrap();
        proof {
            assert(x@ == m.take(k)[k - 1]);
            assert(m.take(k)[k - 1] == m[k - 1]);
            assert(v@.map_values(|l: Label| l@) =~= m.take(k - 1)) by {
                assert(forall|i: int|
                    0 <= i < v@.len() ==> v@.map_values(|l: Label| l@)[i] == #[trigger] v@[i]@);
            }
            let tail = m.skip(k - 1);
            assert(tail.len() > 0);
            assert(tail[0] == m[k - 1]);
            assert(tail.drop_first() =~= m.skip(k));
        }
        insert_label(&mut out, x);
    }
    proof {
        assert(m.skip(0) =~= m);
        assert(m.take(v@.len() as int).len() == 0);
        assert(v@.map_values(|l: Label| l@).len() == v@.len());
    }
    let mut out = out;
    core::mem::swap(v, &mut out);
}

/// Insert a sample into a sorted vector, in front of its equals.
fn insert_sample(v: &mut Vec<Sample>, x: Sample)
    ensures
        final(v)@ == insert_by(sample_leq(), x, old(v)@),
{
    let ghost m = v@;
    let mut j: usize = 0;
    loop
        invariant
            j <= v@.len(),
            v@ == m,
            forall|k: int| 0 <= k < j ==> !sample_leq()(x, m[k]),
        ensures
            j <= v@.len(),
            v@ == m,
            forall|k: int| 0 <= k < j ==> !sample_leq()(x, m[k]),
            j < v@.len() ==> sample_leq()(x, m[j as int]),
        decreases v@.len() - j,
    {
        if j >= v.len() {
            break;
        }
        if x.timestamp <= v[j].timestamp {
            break;
        }
        j = j + 1;
    }
    proof {
        lemma_insert_by_at(sample_leq(), x, m, j as int);
    }
    v.insert(j, x);
    assert(v@ =~= m.take(j as int) + seq![x] + m.skip(j as int));
}

/// Sort samples by timestamp, stably.
fn sort_samples(v: &mut Vec<Sample>)
    ensures
        final(v)@ == sort_by_insertion(sample_leq(), old(v)@),
{
    let ghost m = v@;
    let mut out: Vec<Sample> = Vec::new();
    proof {
        assert(out@ =~= sort_by_insertion(sample_leq(), m.skip(v@.len() as int)));
    }
    while v.len() > 0
        invariant
            v@ == m.take(v@.len() as int),
            v@.len() <= m.len(),
            out@ == sort_by_insertion(sample_leq(), m.skip(v@.len() as int)),
        decreases v@.len(),
    {
        let ghost k = v@.len() as int;
        let x = v.pop().unwrap();
        proof {
            assert(x == m.take(k)[k - 1]);
            assert(v@ =~= m.take(k - 1));
            let tail = m.skip(k - 1);
            assert(tail[0] == m[k - 1]);
            assert(tail.drop_first() =~= m.skip(k));
        }
        insert_sample(&mut out, x);
    }
    proof {
        assert(m.skip(0) =~= m);
    }
    let mut out = out;
    core::mem::swap(v, &mut out);
}

/// The value of the first label named `__name__`.
proof fn lemma_name_value_at(ls: Seq<LabelModel>, i: int)
    requires
        0 <= i < ls.len(),
        forall|k: int| 0 <= k < i ==> ls[k].name != "__name__"@,
        ls[i].name == "__name__"@,
    ensures
        name_value_of(ls) == ls[i].value,
    decreases i,
{
    if i > 0 {
        lemma_name_value_at(ls.drop_first(), i - 1);
    }
}

/// With no label named `__name__`, the sort key is the empty string.
proof fn lemma_name_value_none(ls: Seq<LabelModel>)
    requires
        forall|k: int| 0 <= k < ls.len() ==> ls[k].name != "__name__"@,
    ensures
        name_value_of(ls) == Seq::<char>::empty(),
    decreases ls.len(),
{
    if ls.len() > 0 {
        lemma_name_value_none(ls.drop_first());
    }
}

/// The metric name of a series: the value of its first `__name__` label,
/// or the empty string.
pub fn series_name_str(ts: &TimeSeries) -> (r: &str)
    ensures
        r@ == series_name(ts@),
{
    let ghost ls = ts@.labels;
    let mut i: usize = 0;
    while i < ts.labels.len()
        invariant
            i <= ts.labels@.len(),
            ls == ts@.labels,
            forall|k: int| 0 <= k < i ==> ls[k].name != "__name__"@,
        decreases ts.labels@.len() - i,
    {
        assert(ls[i as int] == ts.labels@[i as int]@);
        if str_eq(ts.labels[i].name.as_str(), "__name__") {
            proof {
                lemma_name_value_at(ls, i as int);
            }
            return ts.labels[i].value.as_str();
        }
        i = i + 1;
    }
    proof {
        lemma_name_value_none(ls);
        reveal_strlit("");
        assert(""@ =~= Seq::<char>::empty());
    }
    ""
}

/// Exec comparison of two series by metric name.
fn series_le(a: &TimeSeries, b: &TimeSeries) -> (r: bool)
    ensures
        r == series_leq()(a@, b@),
{
    str_le(series_name_str(a), series_name_str(b))
}

/// Insert a series into a sorted vector, in front of its equals.
fn insert_series(v: &mut Vec<TimeSeries>, x: TimeSeries)
    ensures
        final(v)@.map_values(|t: TimeSeries| t@) == insert_by(
            series_leq(),
            x@,
            old(v)@.map_values(|t: TimeSeries| t@),
        ),
{
    let ghost m = v@.map_values(|t: TimeSeries| t@);
    let mut j: usize = 0;
    loop
        invariant
            j <= v@.len(),
            v@.map_values(|t: TimeSeries| t@) == m,
            forall|k: int| 0 <= k < j ==> !series_leq()(x@, m[k]),
        ensures
            j <= v@.len(),
            v@.map_values(|t: TimeSeries| t@) == m,
            forall|k: int| 0 <= k < j ==> !series_leq()(x@, m[k]),
            j < v@.len() ==> series_leq()(x@, m[j as int]),
        decreases v@.len() - j,
    {
        if j >= v.len() {
            break;
        }
        if series_le(&x, &v[j]) {
            assert(m[j as int] == v@[j as int]@);
            break;
        }
        assert(m[j as int] == v@[j as int]@);
        j = j + 1;
    }
    proof {
        lemma_insert_by_at(series_leq(), x@, m, j as int);
    }
    v.insert(j, x);
    assert(v@.map_values(|t: TimeSeries| t@) =~= m.take(j as int) + seq![x@] + m.skip(j as int));
}

/// Sort a series list by metric name, stably.
pub(crate) fn sort_series(v: &mut Vec<TimeSeries>)
    ensures
        final(v)@.map_values(|t: TimeSeries| t@) == sort_by_insertion(
            series_leq(),
            old(v)@.map_values(|t: TimeSeries| t@),
        ),
{
    let ghost m = v@.map_values(|t: TimeSeries| t@);
    let mut out: Vec<TimeSeries> = Vec::new();
    proof {
        assert(out@.map_values(|t: TimeSeries| t@) =~= sort_by_insertion(
            series_leq(),
            m.skip(v@.len() as int),
        ));
    }
    while v.len() > 0
        invariant
            v@.map_values(|t: TimeSeries| t@) == m.take(v@.len() as int),
            v@.len() <= m.len(),
            out@.map_values(|t: TimeSeries| t@) == sort_by_insertion(
                series_leq(),
                m.skip(v@.len() as int),
            ),
        decreases v@.len(),
    {
        let ghost k = v@.len() as int;
        let x = v.pop().unwrap();
        proof {
            assert(x@ == m.take(k)[k - 1]);
            assert(m.take(k)[k - 1] == m[k - 1]);
            assert(v@.map_values(|t: TimeSeries| t@) =~= m.take(k - 1)) by {
                assert(forall|i: int|
                    0 <= i < v@.len() ==> v@.map_values(|t: TimeSeries| t@)[i] == #[trigger] v@[i]@);
            }
            let tail = m.skip(k - 1);
            assert(tail[0] == m[k - 1]);
            assert(tail.drop_first() =~= m.skip(k));
        }
        insert_series(&mut out, x);
    }
    proof {
        assert(m.skip(0) =~= m);
        assert(m.take(v@.len() as int).len() == 0);
        assert(v@.map_values(|t: TimeSeries| t@).len() == v@.len());
    }
    let mut out = out;
    core::mem::swap(v, &mut out);
}

impl TimeSeries {
    /// Sort the labels by name, and the samples by timestamp.
    ///
    /// The remote-write protocol requires both orderings.
    pub fn sort_labels_and_samples(&mut self)
        ensures
            final(self)@ == canon_series(old(self)@),
    {
        sort_labels(&mut self.labels);
        sort_samples(&mut self.samples);
    }
}

impl WriteRequest {
    /// Bring every series into canonical internal order.
    ///
    /// The protocol defines label and sample ordering as part of wire
    /// validity, not as an optimization.
    pub fn sort(&mut self)
        ensures
            final(self)@ == within_canon(old(self)@),
    {
        let ghost m = self.timeseries@.map_values(|t: TimeSeries| t@);
        let mut i: usize = 0;
        proof {
            assert(forall|k: int|
                0 <= k < m.len() ==> m[k] == #[trigger] self.timeseries@[k]@);
        }
        while i < self.timeseries.len()
            invariant
                i <= self.timeseries@.len(),
                self.timeseries@.len() == m.len(),
                forall|k: int| i <= k < m.len() ==> #[trigger] self.timeseries@[k]@ == m[k],
                forall|k: int|
                    0 <= k < i ==> #[trigger] self.timeseries@[k]@ == canon_series(m[k]),
            decreases m.len() - i,
        {
            self.timeseries[i].sort_labels_and_samples();
            i = i + 1;
        }
        proof {
            assert(final(self)@.timeseries =~= within_canon(old(self)@).timeseries);
        }
    }

    /// [`WriteRequest::sort`], by value.
    pub fn sorted(self) -> (r: Self)
        ensures
            r@ == within_canon(self@),
    {
        let mut this = self;
        this.sort();
        this
    }
}

} // verus!
