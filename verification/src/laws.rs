//! The laws of the pipeline, stated and proved once: grouping is
//! identity-stable, and the canonical form is fully ordered.

use vstd::prelude::*;
use vstd::relations::sorted_by;

use crate::canon::canon_series;
use crate::canon::label_leq;
use crate::canon::lemma_label_leq_properties;
use crate::canon::lemma_sample_leq_properties;
use crate::canon::lemma_series_leq_properties;
use crate::canon::request_canon;
use crate::canon::sample_leq;
use crate::canon::series_leq;
use crate::canon::within_canon;
use crate::observe::find_series;
use crate::observe::first_obs_error;
use crate::observe::group_obs;
use crate::observe::obs_identity;
use crate::observe::obs_sample;
use crate::observe::ObservationModel;
use crate::sorting::lemma_sort_by_insertion_ensures;
use crate::sorting::lemma_sort_by_insertion_idempotent;
use crate::types::LabelModel;
use crate::types::RequestModel;
use crate::types::Sample;
use crate::types::SeriesModel;

verus! {

/// How many observations carry this identity.
pub open spec fn count_with_id(obs: Seq<ObservationModel>, id: Seq<LabelModel>) -> nat
    decreases obs.len(),
{
    if obs.len() == 0 {
        0
    } else {
        count_with_id(obs.drop_last(), id) + if obs_identity(obs.last()) == id {
            1nat
        } else {
            0nat
        }
    }
}

/// The samples of the observations with this identity, in input order.
pub open spec fn samples_with_id(obs: Seq<ObservationModel>, id: Seq<LabelModel>) -> Seq<Sample>
    decreases obs.len(),
{
    if obs.len() == 0 {
        Seq::empty()
    } else if obs_identity(obs.last()) == id {
        samples_with_id(obs.drop_last(), id).push(obs_sample(obs.last()))
    } else {
        samples_with_id(obs.drop_last(), id)
    }
}

/// How many series carry these labels.
pub open spec fn count_series_with(ts: Seq<SeriesModel>, id: Seq<LabelModel>) -> nat
    decreases ts.len(),
{
    if ts.len() == 0 {
        0
    } else {
        count_series_with(ts.drop_last(), id) + if ts.last().labels == id {
            1nat
        } else {
            0nat
        }
    }
}

proof fn lemma_samples_len(obs: Seq<ObservationModel>, id: Seq<LabelModel>)
    ensures
        samples_with_id(obs, id).len() == count_with_id(obs, id),
    decreases obs.len(),
{
    if obs.len() > 0 {
        lemma_samples_len(obs.drop_last(), id);
    }
}

proof fn lemma_find_series_none(acc: Seq<SeriesModel>, id: Seq<LabelModel>)
    ensures
        (find_series(acc, id) == -1) == (forall|j: int|
            0 <= j < acc.len() ==> acc[j].labels != id),
        find_series(acc, id) != -1 ==> 0 <= find_series(acc, id) < acc.len() && acc[find_series(
            acc,
            id,
        )].labels == id,
    decreases acc.len(),
{
    if acc.len() > 0 {
        lemma_find_series_none(acc.drop_first(), id);
        if acc[0].labels == id {
        } else {
            let r = find_series(acc.drop_first(), id);
            if r == -1 {
                assert forall|j: int| 0 <= j < acc.len() implies acc[j].labels != id by {
                    if j > 0 {
                        assert(acc.drop_first()[j - 1] == acc[j]);
                    }
                }
            } else {
                assert(acc[r + 1] == acc.drop_first()[r]);
            }
        }
    }
}

proof fn lemma_count_series_forall(acc: Seq<SeriesModel>, id: Seq<LabelModel>)
    ensures
        (count_series_with(acc, id) == 0) == (forall|j: int|
            0 <= j < acc.len() ==> acc[j].labels != id),
    decreases acc.len(),
{
    if acc.len() > 0 {
        lemma_count_series_forall(acc.drop_last(), id);
        if count_series_with(acc, id) == 0 {
            assert forall|j: int| 0 <= j < acc.len() implies acc[j].labels != id by {
                if j < acc.len() - 1 {
                    assert(acc.drop_last()[j] == acc[j]);
                }
            }
        } else {
            if forall|j: int| 0 <= j < acc.len() ==> acc[j].labels != id {
                assert(forall|j: int|
                    0 <= j < acc.drop_last().len() ==> #[trigger] acc.drop_last()[j] == acc[j]);
            }
        }
    }
}

proof fn lemma_count_series_unique(acc: Seq<SeriesModel>, id: Seq<LabelModel>, k: int)
    requires
        0 <= k < acc.len(),
        acc[k].labels == id,
        forall|j: int| 0 <= j < acc.len() && j != k ==> acc[j].labels != id,
    ensures
        count_series_with(acc, id) == 1,
    decreases acc.len(),
{
    assert(forall|j: int|
        0 <= j < acc.drop_last().len() ==> #[trigger] acc.drop_last()[j] == acc[j]);
    if k == acc.len() - 1 {
        lemma_count_series_forall(acc.drop_last(), id);
    } else {
        lemma_count_series_unique(acc.drop_last(), id, k);
    }
}

proof fn lemma_count_series_update(acc: Seq<SeriesModel>, k: int, s: SeriesModel, id: Seq<
    LabelModel,
>)
    requires
        0 <= k < acc.len(),
        s.labels == acc[k].labels,
    ensures
        count_series_with(acc.update(k, s), id) == count_series_with(acc, id),
    decreases acc.len(),
{
    let u = acc.update(k, s);
    if k == acc.len() - 1 {
        assert(u.drop_last() =~= acc.drop_last());
        assert(u.last() == s);
    } else {
        assert(u.drop_last() =~= acc.drop_last().update(k, s));
        assert(u.last() == acc.last());
        lemma_count_series_update(acc.drop_last(), k, s, id);
    }
}

proof fn lemma_count_series_push(acc: Seq<SeriesModel>, s: SeriesModel, id: Seq<LabelModel>)
    ensures
        count_series_with(acc.push(s), id) == count_series_with(acc, id) + if s.labels == id {
            1nat
        } else {
            0nat
        },
{
    assert(acc.push(s).drop_last() =~= acc);
    assert(acc.push(s).last() == s);
}

/// The series built by grouping have pairwise distinct label lists.
pub proof fn lemma_group_obs_distinct(obs: Seq<ObservationModel>)
    ensures
        forall|i: int, j: int|
            0 <= i < j < group_obs(obs).len() ==> group_obs(obs)[i].labels != group_obs(
                obs,
            )[j].labels,
    decreases obs.len(),
{
    if obs.len() > 0 {
        lemma_group_obs_distinct(obs.drop_last());
        let g = group_obs(obs.drop_last());
        let o = obs.last();
        let id = obs_identity(o);
        let k = find_series(g, id);
        lemma_find_series_none(g, id);
        if k == -1 {
            assert forall|i: int, j: int|
                0 <= i < j < group_obs(obs).len() implies group_obs(obs)[i].labels != group_obs(
                obs,
            )[j].labels by {
                if j < g.len() {
                    assert(group_obs(obs)[i] == g[i]);
                    assert(group_obs(obs)[j] == g[j]);
                } else {
                    assert(group_obs(obs)[i] == g[i]);
                    assert(group_obs(obs)[j].labels == id);
                }
            }
        } else {
            assert forall|i: int, j: int|
                0 <= i < j < group_obs(obs).len() implies group_obs(obs)[i].labels != group_obs(
                obs,
            )[j].labels by {
                assert(group_obs(obs)[i].labels == g[i].labels);
                assert(group_obs(obs)[j].labels == g[j].labels);
            }
        }
    }
}

/// Grouping invariant, at the grouping stage: a batch of observations
/// sharing one identity always yields exactly one series with those
/// labels, holding exactly their samples, in input order.
pub proof fn lemma_group_obs_invariant(obs: Seq<ObservationModel>, id: Seq<LabelModel>)
    ensures
        count_series_with(group_obs(obs), id) == if count_with_id(obs, id) > 0 {
            1nat
        } else {
            0nat
        },
        forall|i: int|
            0 <= i < group_obs(obs).len() && group_obs(obs)[i].labels == id ==> group_obs(
                obs,
            )[i].samples == samples_with_id(obs, id),
    decreases obs.len(),
{
    if obs.len() > 0 {
        let prefix = obs.drop_last();
        let o = obs.last();
        let idl = obs_identity(o);
        lemma_group_obs_invariant(prefix, id);
        lemma_group_obs_invariant(prefix, idl);
        lemma_group_obs_distinct(prefix);
        let g = group_obs(prefix);
        let k = find_series(g, idl);
        lemma_find_series_none(g, idl);
        lemma_count_series_forall(g, idl);
        if k == -1 {
            let s = SeriesModel { labels: idl, samples: seq![obs_sample(o)] };
            lemma_count_series_push(g, s, id);
            if idl == id {
                lemma_samples_len(prefix, id);
                assert(samples_with_id(prefix, id).len() == 0);
                assert(samples_with_id(prefix, id) =~= Seq::<Sample>::empty());
                assert(s.samples =~= samples_with_id(obs, id));
            }
            assert forall|i: int|
                0 <= i < group_obs(obs).len() && group_obs(obs)[i].labels == id implies group_obs(
                obs,
            )[i].samples == samples_with_id(obs, id) by {
                if i < g.len() {
                    assert(group_obs(obs)[i] == g[i]);
                }
            }
        } else {
            let updated = SeriesModel {
                labels: g[k].labels,
                samples: g[k].samples.push(obs_sample(o)),
            };
            lemma_count_series_update(g, k, updated, id);
            if idl == id {
                assert(g[k].samples == samples_with_id(prefix, id));
                assert(count_with_id(prefix, id) > 0) by {
                    lemma_count_series_forall(g, id);
                }
            }
            assert forall|i: int|
                0 <= i < group_obs(obs).len() && group_obs(obs)[i].labels == id implies group_obs(
                obs,
            )[i].samples == samples_with_id(obs, id) by {
                if i == k {
                } else {
                    assert(group_obs(obs)[i] == g[i]);
                }
            }
        }
    }
}

/// A request is canonical: the series are ordered by metric name, and
/// within each series the labels are ordered by name and the samples by
/// timestamp.
pub open spec fn request_is_canonical(r: RequestModel) -> bool {
    &&& sorted_by(r.timeseries, series_leq())
    &&& forall|i: int|
        0 <= i < r.timeseries.len() ==> sorted_by(
            #[trigger] r.timeseries[i].labels,
            label_leq(),
        ) && sorted_by(r.timeseries[i].samples, sample_leq())
}

/// Ordering invariant: the canonical form of any request is canonical.
pub proof fn lemma_request_canon_is_canonical(r: RequestModel)
    ensures
        request_is_canonical(request_canon(r)),
{
    lemma_label_leq_properties();
    lemma_sample_leq_properties();
    lemma_series_leq_properties();
    broadcast use vstd::seq_lib::group_to_multiset_ensures;

    let within = within_canon(r).timeseries;
    lemma_sort_by_insertion_ensures(series_leq(), within);
    let out = request_canon(r).timeseries;
    assert forall|i: int|
        0 <= i < out.len() implies sorted_by(#[trigger] out[i].labels, label_leq()) && sorted_by(
        out[i].samples,
        sample_leq(),
    ) by {
        assert(out.to_multiset().contains(out[i])) by {
            assert(out[i] == out[i]);
        }
        assert(within.to_multiset().contains(out[i]));
        assert(within.contains(out[i]));
        let j = choose|j: int| 0 <= j < within.len() && within[j] == out[i];
        let orig = r.timeseries[j];
        assert(within[j] == canon_series(orig));
        lemma_sort_by_insertion_ensures(label_leq(), orig.labels);
        lemma_sort_by_insertion_ensures(sample_leq(), orig.samples);
    }
}

/// Grouping invariant, at the request: for observations of one identity
/// (any order, any number at least one), the canonical request holds
/// exactly one series with those labels, and its sample count is the
/// number of those observations. The identity is a sorted label list,
/// so canonicalization leaves it in place.
pub proof fn lemma_grouping_invariant(obs: Seq<ObservationModel>, id: Seq<LabelModel>)
    requires
        count_with_id(obs, id) > 0,
    ensures
        ({
            let canon = request_canon(RequestModel { timeseries: group_obs(obs) }).timeseries;
            &&& count_series_with(canon, id) == 1
            &&& forall|i: int|
                0 <= i < canon.len() && canon[i].labels == id ==> canon[i].samples.len()
                    == count_with_id(obs, id)
        }),
{
    lemma_label_leq_properties();
    lemma_sample_leq_properties();
    lemma_series_leq_properties();
    broadcast use vstd::seq_lib::group_to_multiset_ensures;

    let g = group_obs(obs);
    lemma_group_obs_invariant(obs, id);
    lemma_group_obs_distinct(obs);
    lemma_samples_len(obs, id);
    // The identity is sorted, so the within-series pass keeps it.
    assert forall|i: int| 0 <= i < g.len() implies #[trigger] canon_series(g[i]).labels
        == g[i].labels by {
        lemma_group_series_labels_sorted(obs, i);
        lemma_sort_by_insertion_idempotent(label_leq(), g[i].labels);
    }
    let within = within_canon(RequestModel { timeseries: g }).timeseries;
    let canon = request_canon(RequestModel { timeseries: g }).timeseries;
    lemma_sort_by_insertion_ensures(series_leq(), within);
    // Exactly one series of `g` has these labels; find it.
    lemma_count_series_forall(g, id);
    let k = choose|k: int| 0 <= k < g.len() && g[k].labels == id;
    assert(g[k].labels == id) by {
        if forall|j: int| 0 <= j < g.len() ==> g[j].labels != id {
            assert(count_series_with(g, id) == 0);
        }
    }
    let target = within[k];
    assert(target.labels == id);
    assert(target.samples.len() == count_with_id(obs, id)) by {
        lemma_sort_by_insertion_ensures(sample_leq(), g[k].samples);
    }
    // Every canonical series is one of the within-pass series, with the
    // same position-wise labels as `g`; series with these labels are
    // unique there, so they are unique in the permutation too.
    assert forall|i: int| 0 <= i < canon.len() && canon[i].labels == id implies canon[i].samples
        == target.samples by {
        assert(canon.to_multiset().contains(canon[i])) by {
            assert(canon[i] == canon[i]);
        }
        assert(within.to_multiset().contains(canon[i]));
        assert(within.contains(canon[i]));
        let j = choose|j: int| 0 <= j < within.len() && within[j] == canon[i];
        assert(within[j].labels == g[j].labels);
        assert(j == k);
    }
    assert(canon.contains(target)) by {
        assert(within[k] == target);
        assert(within.contains(target));
        assert(within.to_multiset().contains(target));
        assert(canon.to_multiset().contains(target));
    }
    let t = choose|t: int| 0 <= t < canon.len() && canon[t] == target;
    assert forall|i: int| 0 <= i < canon.len() && i != t implies canon[i].labels != id by {
        if canon[i].labels == id {
            // Two positions with these labels would mean two source
            // positions with them, but the grouped series' label lists
            // are pairwise distinct.
            lemma_two_positions(within, canon, i, t, id);
            let (a, b) = choose|a: int, b: int|
                0 <= a < b < within.len() && within[a].labels == id && within[b].labels == id;
            assert(within[a].labels == g[a].labels);
            assert(within[b].labels == g[b].labels);
        }
    }
    lemma_count_series_unique(canon, id, t);
}

/// The labels of every grouped series are sorted: they are an identity,
/// which is a sorted list by construction.
proof fn lemma_group_series_labels_sorted(obs: Seq<ObservationModel>, i: int)
    requires
        0 <= i < group_obs(obs).len(),
    ensures
        sorted_by(group_obs(obs)[i].labels, label_leq()),
    decreases obs.len(),
{
    lemma_label_leq_properties();
    if obs.len() > 0 {
        let g = group_obs(obs.drop_last());
        let o = obs.last();
        let id = obs_identity(o);
        let k = find_series(g, id);
        lemma_find_series_none(g, id);
        if k == -1 {
            if i < g.len() {
                lemma_group_series_labels_sorted(obs.drop_last(), i);
            } else {
                lemma_sort_by_insertion_ensures(
                    label_leq(),
                    o.labels.push(LabelModel { name: "__name__"@, value: o.metric }),
                );
            }
        } else {
            assert(group_obs(obs)[i].labels == g[i].labels);
            lemma_group_series_labels_sorted(obs.drop_last(), i);
        }
    }
}

/// Two distinct positions of a permutation holding one label list mean
/// two distinct source positions holding it too.
proof fn lemma_two_positions(
    within: Seq<SeriesModel>,
    canon: Seq<SeriesModel>,
    i: int,
    t: int,
    id: Seq<LabelModel>,
)
    requires
        canon.to_multiset() == within.to_multiset(),
        0 <= i < canon.len(),
        0 <= t < canon.len(),
        i != t,
        canon[i].labels == id,
        canon[t].labels == id,
    ensures
        exists|a: int, b: int|
            0 <= a < b < within.len() && within[a].labels == id && within[b].labels == id,
{
    broadcast use vstd::seq_lib::group_to_multiset_ensures;

    if canon[i] == canon[t] {
        // The value appears at least twice, so it appears at least
        // twice among the within-pass series as well.
        let v = canon[i];
        let removed = canon.remove(t);
        assert(removed.to_multiset() == canon.to_multiset().remove(v));
        assert(removed.contains(v)) by {
            if i < t {
                assert(removed[i] == v);
            } else {
                assert(removed[i - 1] == v);
            }
        }
        assert(removed.to_multiset().contains(v));
        let w1 = choose|w1: int| 0 <= w1 < within.len() && within[w1] == v;
        assert(within.contains(v)) by {
            assert(within.to_multiset().contains(v));
        }
        assert(within[w1] == v);
        assert(within.remove(w1).to_multiset() == within.to_multiset().remove(v));
        assert(within.remove(w1).to_multiset().contains(v));
        assert(within.remove(w1).contains(v));
        let w2 = choose|w2: int| 0 <= w2 < within.remove(w1).len() && within.remove(w1)[w2] == v;
        if w2 < w1 {
            assert(within[w2] == v);
            assert(0 <= w2 < w1 < within.len() && within[w2].labels == id && within[w1].labels
                == id);
        } else {
            assert(within[w2 + 1] == v);
            assert(0 <= w1 < w2 + 1 < within.len() && within[w1].labels == id && within[w2
                + 1].labels == id);
        }
    } else {
        assert(canon.contains(canon[i]));
        assert(canon.contains(canon[t]));
        assert(canon.to_multiset().contains(canon[i]));
        assert(canon.to_multiset().contains(canon[t]));
        assert(within.to_multiset().contains(canon[i]));
        assert(within.to_multiset().contains(canon[t]));
        assert(within.contains(canon[i]));
        assert(within.contains(canon[t]));
        let a = choose|a: int| 0 <= a < within.len() && within[a] == canon[i];
        let b = choose|b: int| 0 <= b < within.len() && within[b] == canon[t];
        assert(a != b);
        if a < b {
            assert(0 <= a < b < within.len() && within[a].labels == id && within[b].labels == id);
        } else {
            assert(0 <= b < a < within.len() && within[b].labels == id && within[a].labels == id);
        }
    }
}

/// Canonicalizing twice is canonicalizing once.
pub proof fn lemma_request_canon_idempotent(r: RequestModel)
    ensures
        request_canon(request_canon(r)) == request_canon(r),
{
    lemma_label_leq_properties();
    lemma_sample_leq_properties();
    lemma_series_leq_properties();
    let once = request_canon(r);
    // Every series of the canonical form is already internally sorted,
    // so the inner pass of the second canonicalization changes nothing.
    assert forall|i: int| 0 <= i < once.timeseries.len() implies #[trigger] canon_series(
        once.timeseries[i],
    ) == once.timeseries[i] by {
        let sorted_series = within_canon(r).timeseries;
        lemma_sort_by_insertion_ensures(series_leq(), sorted_series);
        assert(once.timeseries.to_multiset().contains(once.timeseries[i])) by {
            broadcast use vstd::seq_lib::group_to_multiset_ensures;

        }
        assert(sorted_series.to_multiset().contains(once.timeseries[i]));
        assert(sorted_series.contains(once.timeseries[i])) by {
            broadcast use vstd::seq_lib::group_to_multiset_ensures;

        }
        let j = choose|j: int|
            0 <= j < sorted_series.len() && sorted_series[j] == once.timeseries[i];
        let orig = r.timeseries[j];
        assert(sorted_series[j] == canon_series(orig));
        lemma_sort_by_insertion_ensures(label_leq(), orig.labels);
        lemma_sort_by_insertion_ensures(sample_leq(), orig.samples);
        lemma_sort_by_insertion_idempotent(label_leq(), canon_series(orig).labels);
        lemma_sort_by_insertion_idempotent(sample_leq(), canon_series(orig).samples);
    }
    assert(within_canon(once).timeseries =~= once.timeseries);
    lemma_sort_by_insertion_ensures(series_leq(), within_canon(r).timeseries);
    lemma_sort_by_insertion_idempotent(series_leq(), once.timeseries);
    assert(request_canon(once) =~= once);
}

/// Idempotence, at the bytes: canonicalizing twice and encoding gives
/// the same bytes as canonicalizing once and encoding.
pub proof fn lemma_canonical_encoding_idempotent(r: RequestModel)
    ensures
        crate::encode::encoded_request(request_canon(request_canon(r)))
            == crate::encode::encoded_request(request_canon(r)),
{
    lemma_request_canon_idempotent(r);
}

/// Determinism: the compressed encoding is a function of the request's
/// content alone ([`WriteRequest::encode_compressed`] pins its result
/// to it), so encoding one canonical request twice gives byte-identical
/// compressed output.
pub proof fn lemma_encoding_deterministic(a: RequestModel, b: RequestModel)
    requires
        a == b,
    ensures
        crate::compress::snappy_of(crate::encode::encoded_request(within_canon(a)))
            == crate::compress::snappy_of(crate::encode::encoded_request(within_canon(b))),
{
}

/// A clean batch has no error at any position.
proof fn lemma_first_obs_error_all(obs: Seq<ObservationModel>)
    requires
        first_obs_error(obs) is None,
    ensures
        forall|k: int| 0 <= k < obs.len() ==> crate::observe::obs_error(#[trigger] obs[k]) is None,
    decreases obs.len(),
{
    if obs.len() > 0 {
        lemma_first_obs_error_all(obs.drop_first());
        assert forall|k: int|
            0 <= k < obs.len() implies crate::observe::obs_error(#[trigger] obs[k]) is None by {
            if k > 0 {
                assert(obs[k] == obs.drop_first()[k - 1]);
                assert(crate::observe::obs_error(obs.drop_first()[k - 1]) is None);
            }
        }
    }
}

/// Two distinct positions of a permutation holding one label name mean
/// two distinct source positions holding it too.
proof fn lemma_two_name_positions(src: Seq<LabelModel>, dst: Seq<LabelModel>, i: int, j: int)
    requires
        dst.to_multiset() == src.to_multiset(),
        0 <= i < dst.len(),
        0 <= j < dst.len(),
        i != j,
        dst[i].name == dst[j].name,
    ensures
        exists|a: int, b: int|
            0 <= a < b < src.len() && #[trigger] src[a].name == #[trigger] src[b].name,
{
    broadcast use vstd::seq_lib::group_to_multiset_ensures;

    if dst[i] == dst[j] {
        let v = dst[i];
        let removed = dst.remove(j);
        assert(removed.to_multiset() == dst.to_multiset().remove(v));
        assert(removed.contains(v)) by {
            if i < j {
                assert(removed[i] == v);
            } else {
                assert(removed[i - 1] == v);
            }
        }
        assert(removed.to_multiset().contains(v));
        let w1 = choose|w1: int| 0 <= w1 < src.len() && src[w1] == v;
        assert(src.contains(v)) by {
            assert(src.to_multiset().contains(v));
        }
        assert(src[w1] == v);
        assert(src.remove(w1).to_multiset() == src.to_multiset().remove(v));
        assert(src.remove(w1).to_multiset().contains(v));
        assert(src.remove(w1).contains(v));
        let w2 = choose|w2: int| 0 <= w2 < src.remove(w1).len() && src.remove(w1)[w2] == v;
        if w2 < w1 {
            assert(src[w2] == v);
            assert(0 <= w2 < w1 < src.len() && src[w2].name == src[w1].name);
        } else {
            assert(src[w2 + 1] == v);
            assert(0 <= w1 < w2 + 1 < src.len() && src[w1].name == src[w2 + 1].name);
        }
    } else {
        assert(dst.contains(dst[i]));
        assert(dst.contains(dst[j]));
        assert(dst.to_multiset().contains(dst[i]));
        assert(dst.to_multiset().contains(dst[j]));
        assert(src.to_multiset().contains(dst[i]));
        assert(src.to_multiset().contains(dst[j]));
        assert(src.contains(dst[i]));
        assert(src.contains(dst[j]));
        let a = choose|a: int| 0 <= a < src.len() && src[a] == dst[i];
        let b = choose|b: int| 0 <= b < src.len() && src[b] == dst[j];
        assert(a != b);
        if a < b {
            assert(0 <= a < b < src.len() && src[a].name == src[b].name);
        } else {
            assert(0 <= b < a < src.len() && src[b].name == src[a].name);
        }
    }
}

/// Sorting labels keeps their names pairwise distinct.
proof fn lemma_sorted_labels_distinct(ls: Seq<LabelModel>)
    requires
        forall|i: int, j: int| 0 <= i < j < ls.len() ==> ls[i].name != ls[j].name,
    ensures
        forall|i: int, j: int|
            0 <= i < j < crate::sorting::sort_by_insertion(label_leq(), ls).len()
                ==> crate::sorting::sort_by_insertion(label_leq(), ls)[i].name
                != crate::sorting::sort_by_insertion(label_leq(), ls)[j].name,
{
    lemma_label_leq_properties();
    lemma_sort_by_insertion_ensures(label_leq(), ls);
    let sorted = crate::sorting::sort_by_insertion(label_leq(), ls);
    assert forall|i: int, j: int| 0 <= i < j < sorted.len() implies sorted[i].name
        != sorted[j].name by {
        if sorted[i].name == sorted[j].name {
            lemma_two_name_positions(ls, sorted, i, j);
        }
    }
}

/// The identity of a clean observation with distinct label names: its
/// label names are pairwise distinct and one of them is `__name__`.
proof fn lemma_identity_names_wf(o: ObservationModel)
    requires
        crate::observe::obs_labels_distinct(o),
        !crate::observe::has_reserved_label(o),
    ensures
        series_labels_wf(obs_identity(o)),
{
    broadcast use vstd::seq_lib::group_to_multiset_ensures;

    lemma_label_leq_properties();
    let name_label = LabelModel { name: "__name__"@, value: o.metric };
    let pushed = o.labels.push(name_label);
    assert forall|i: int, j: int| 0 <= i < j < pushed.len() implies pushed[i].name
        != pushed[j].name by {
        if j == pushed.len() - 1 {
            assert(pushed[i] == o.labels[i]);
            assert(pushed[j] == name_label);
        } else {
            assert(pushed[i] == o.labels[i]);
            assert(pushed[j] == o.labels[j]);
        }
    }
    lemma_sorted_labels_distinct(pushed);
    lemma_sort_by_insertion_ensures(label_leq(), pushed);
    let sorted = obs_identity(o);
    assert(pushed.contains(name_label)) by {
        assert(pushed.last() == name_label);
    }
    assert(pushed.to_multiset().contains(name_label));
    assert(sorted.to_multiset().contains(name_label));
    assert(sorted.contains(name_label));
    let k = choose|k: int| 0 <= k < sorted.len() && sorted[k] == name_label;
    assert(sorted[k].name == "__name__"@);
}

/// The labels of every grouped series are the identity of one of the
/// observations.
proof fn lemma_group_series_identity(obs: Seq<ObservationModel>, i: int)
    requires
        0 <= i < group_obs(obs).len(),
    ensures
        exists|j: int| 0 <= j < obs.len() && group_obs(obs)[i].labels == obs_identity(
            #[trigger] obs[j],
        ),
    decreases obs.len(),
{
    if obs.len() > 0 {
        let g = group_obs(obs.drop_last());
        let o = obs.last();
        let id = obs_identity(o);
        let k = find_series(g, id);
        lemma_find_series_none(g, id);
        if k == -1 && i == g.len() {
            assert(group_obs(obs)[i].labels == obs_identity(obs[obs.len() - 1]));
        } else {
            assert(group_obs(obs)[i].labels == g[i].labels);
            lemma_group_series_identity(obs.drop_last(), i);
            let j = choose|j: int|
                0 <= j < obs.drop_last().len() && g[i].labels == obs_identity(
                    obs.drop_last()[j],
                );
            assert(obs[j] == obs.drop_last()[j]);
        }
    }
}

/// Well-formed series labels: names pairwise distinct, and one of them
/// is the reserved name label.
pub open spec fn series_labels_wf(ls: Seq<LabelModel>) -> bool {
    (forall|i: int, j: int| 0 <= i < j < ls.len() ==> ls[i].name != ls[j].name) && (exists|i: int|
        0 <= i < ls.len() && ls[i].name == "__name__"@)
}

/// Label well-formedness: for a clean batch of observations whose own
/// label names are pairwise distinct (which the exposition lexer
/// guarantees), every series of the canonical request has pairwise
/// distinct label names, one of them the reserved `__name__`.
pub proof fn lemma_series_label_names_wf(obs: Seq<ObservationModel>)
    requires
        first_obs_error(obs) is None,
        forall|k: int|
            0 <= k < obs.len() ==> crate::observe::obs_labels_distinct(#[trigger] obs[k]),
    ensures
        ({
            let canon = request_canon(RequestModel { timeseries: group_obs(obs) }).timeseries;
            forall|i: int| 0 <= i < canon.len() ==> series_labels_wf(#[trigger] canon[i].labels)
        }),
{
    broadcast use vstd::seq_lib::group_to_multiset_ensures;

    lemma_label_leq_properties();
    lemma_sample_leq_properties();
    lemma_series_leq_properties();
    lemma_first_obs_error_all(obs);
    let g = group_obs(obs);
    assert forall|i: int| 0 <= i < g.len() implies series_labels_wf(
        #[trigger] g[i].labels,
    ) && #[trigger] canon_series(g[i]).labels == g[i].labels by {
        lemma_group_series_identity(obs, i);
        let j = choose|j: int|
            0 <= j < obs.len() && g[i].labels == obs_identity(obs[j]);
        assert(crate::observe::obs_error(obs[j]) is None);
        lemma_identity_names_wf(obs[j]);
        lemma_group_series_labels_sorted(obs, i);
        lemma_sort_by_insertion_idempotent(label_leq(), g[i].labels);
    }
    let within = within_canon(RequestModel { timeseries: g }).timeseries;
    let canon = request_canon(RequestModel { timeseries: g }).timeseries;
    lemma_sort_by_insertion_ensures(series_leq(), within);
    assert forall|i: int| 0 <= i < canon.len() implies series_labels_wf(
        #[trigger] canon[i].labels,
    ) by {
        assert(canon.to_multiset().contains(canon[i])) by {
            assert(canon[i] == canon[i]);
        }
        assert(within.to_multiset().contains(canon[i]));
        assert(within.contains(canon[i]));
        let j = choose|j: int| 0 <= j < within.len() && within[j] == canon[i];
        assert(within[j].labels == g[j].labels);
    }
}

} // verus!



