//! The wire encoder: the fixed protobuf layout of a write request.
//!
//! A request is a sequence of length-delimited series messages under field
//! 1; a series holds length-delimited label messages (field 1) and sample
//! messages (field 2); a label holds two length-delimited strings (name =
//! field 1, value = field 2); a sample holds a fixed-width double (field 1)
//! and a varint-encoded signed 64-bit timestamp (field 2). Fields equal to
//! the protobuf default (empty string, zero value, zero timestamp) are
//! omitted, as proto3 encoders do.

use vstd::prelude::*;
use vstd::string::StringSliceAdditionalSpecFns;
use vstd::utf8::encode_utf8;

use crate::canon::within_canon;
use crate::types::Label;
use crate::types::LabelModel;
use crate::types::RequestModel;
use crate::types::Sample;
use crate::types::SeriesModel;
use crate::types::TimeSeries;
use crate::types::WriteRequest;

verus! {

/// Base-128 varint encoding, least significant group first.
pub open spec fn varint(n: nat) -> Seq<u8>
    decreases n,
{
    if n < 128 {
        seq![n as u8]
    } else {
        seq![(n % 128 + 128) as u8] + varint(n / 128)
    }
}

/// The eight bytes of a 64-bit value, little endian.
pub open spec fn fixed64_le(n: u64) -> Seq<u8> {
    seq![
        (n & 0xff) as u8,
        ((n >> 8) & 0xff) as u8,
        ((n >> 16) & 0xff) as u8,
        ((n >> 24) & 0xff) as u8,
        ((n >> 32) & 0xff) as u8,
        ((n >> 40) & 0xff) as u8,
        ((n >> 48) & 0xff) as u8,
        ((n >> 56) & 0xff) as u8,
    ]
}

/// The two's-complement bits of a signed 64-bit value.
pub open spec fn i64_bits(t: i64) -> u64 {
    if t >= 0 {
        t as u64
    } else {
        (t + 0x1_0000_0000_0000_0000) as u64
    }
}

/// A length-delimited field: tag byte, payload length, payload.
pub open spec fn submsg(tag: u8, payload: Seq<u8>) -> Seq<u8> {
    seq![tag] + varint(payload.len()) + payload
}

/// A length-delimited string field, omitted when empty.
pub open spec fn encoded_string_field(tag: u8, s: Seq<char>) -> Seq<u8> {
    if encode_utf8(s).len() == 0 {
        Seq::empty()
    } else {
        submsg(tag, encode_utf8(s))
    }
}

/// A label message: name under field 1, value under field 2.
pub open spec fn encoded_label(l: LabelModel) -> Seq<u8> {
    encoded_string_field(0x0a, l.name) + encoded_string_field(0x12, l.value)
}

/// A sample message: the double's bits under field 1 (fixed64), the
/// timestamp under field 2 (varint). A zero double (either sign) and a
/// zero timestamp are omitted.
pub open spec fn encoded_sample(s: Sample) -> Seq<u8> {
    (if s.value_bits == 0 || s.value_bits == 0x8000_0000_0000_0000 {
        Seq::<u8>::empty()
    } else {
        seq![0x09u8] + fixed64_le(s.value_bits)
    }) + (if s.timestamp == 0 {
        Seq::<u8>::empty()
    } else {
        seq![0x10u8] + varint(i64_bits(s.timestamp) as nat)
    })
}

/// The label messages of a series, each under field 1.
pub open spec fn encoded_labels(ls: Seq<LabelModel>) -> Seq<u8>
    decreases ls.len(),
{
    if ls.len() == 0 {
        Seq::empty()
    } else {
        submsg(0x0a, encoded_label(ls[0])) + encoded_labels(ls.drop_first())
    }
}

/// The sample messages of a series, each under field 2.
pub open spec fn encoded_samples(ss: Seq<Sample>) -> Seq<u8>
    decreases ss.len(),
{
    if ss.len() == 0 {
        Seq::empty()
    } else {
        submsg(0x12, encoded_sample(ss[0])) + encoded_samples(ss.drop_first())
    }
}

/// A series message: its labels, then its samples.
pub open spec fn encoded_series(s: SeriesModel) -> Seq<u8> {
    encoded_labels(s.labels) + encoded_samples(s.samples)
}

/// The series messages of a request, each under field 1.
pub open spec fn encoded_series_list(ts: Seq<SeriesModel>) -> Seq<u8>
    decreases ts.len(),
{
    if ts.len() == 0 {
        Seq::empty()
    } else {
        submsg(0x0a, encoded_series(ts[0])) + encoded_series_list(ts.drop_first())
    }
}

/// The full binary message of a request.
pub open spec fn encoded_request(r: RequestModel) -> Seq<u8> {
    encoded_series_list(r.timeseries)
}

proof fn lemma_encoded_labels_push(ls: Seq<LabelModel>, l: LabelModel)
    ensures
        encoded_labels(ls.push(l)) == encoded_labels(ls) + submsg(0x0a, encoded_label(l)),
    decreases ls.len(),
{
    if ls.len() == 0 {
        assert(ls.push(l).drop_first() =~= ls);
        assert(ls.push(l)[0] == l);
        assert(encoded_labels(ls.push(l)) =~= encoded_labels(ls) + submsg(
            0x0a,
            encoded_label(l),
        ));
    } else {
        assert(ls.push(l).drop_first() =~= ls.drop_first().push(l));
        lemma_encoded_labels_push(ls.drop_first(), l);
        assert(encoded_labels(ls.push(l)) =~= encoded_labels(ls) + submsg(
            0x0a,
            encoded_label(l),
        ));
    }
}

proof fn lemma_encoded_samples_push(ss: Seq<Sample>, s: Sample)
    ensures
        encoded_samples(ss.push(s)) == encoded_samples(ss) + submsg(0x12, encoded_sample(s)),
    decreases ss.len(),
{
    if ss.len() == 0 {
        assert(ss.push(s).drop_first() =~= ss);
        assert(encoded_samples(ss.push(s)) =~= encoded_samples(ss) + submsg(
            0x12,
            encoded_sample(s),
        ));
    } else {
        assert(ss.push(s).drop_first() =~= ss.drop_first().push(s));
        lemma_encoded_samples_push(ss.drop_first(), s);
        assert(encoded_samples(ss.push(s)) =~= encoded_samples(ss) + submsg(
            0x12,
            encoded_sample(s),
        ));
    }
}

proof fn lemma_encoded_series_list_push(ts: Seq<SeriesModel>, s: SeriesModel)
    ensures
        encoded_series_list(ts.push(s)) == encoded_series_list(ts) + submsg(
            0x0a,
            encoded_series(s),
        ),
    decreases ts.len(),
{
    if ts.len() == 0 {
        assert(ts.push(s).drop_first() =~= ts);
        assert(encoded_series_list(ts.push(s)) =~= encoded_series_list(ts) + submsg(
            0x0a,
            encoded_series(s),
        ));
    } else {
        assert(ts.push(s).drop_first() =~= ts.drop_first().push(s));
        lemma_encoded_series_list_push(ts.drop_first(), s);
        assert(encoded_series_list(ts.push(s)) =~= encoded_series_list(ts) + submsg(
            0x0a,
            encoded_series(s),
        ));
    }
}

/// Append the varint encoding of `n`.
fn push_varint(out: &mut Vec<u8>, n: u64)
    ensures
        final(out)@ == old(out)@ + varint(n as nat),
{
    let mut n = n;
    let ghost n0 = n as nat;
    loop
        invariant_except_break
            old(out)@ + varint(n0) == out@ + varint(n as nat),
        ensures
            out@ == old(out)@ + varint(n0),
        decreases n,
    {
        if n < 128 {
            out.push(n as u8);
            assert(out@ =~= old(out)@ + varint(n0)) by {
                assert(varint(n as nat) =~= seq![n as u8]);
            }
            break;
        }
        let b: u8 = ((n % 128) + 128) as u8;
        let ghost n_before = n as nat;
        out.push(b);
        n = n / 128;
        proof {
            assert(varint(n_before) =~= seq![b] + varint(n as nat));
            assert(forall|p: Seq<u8>, q: Seq<u8>, r: Seq<u8>| #[trigger] (p + (q + r)) =~= (p
                + q) + r);
        }
    }
}

/// Append a byte slice.
fn push_bytes(out: &mut Vec<u8>, bytes: &[u8])
    ensures
        final(out)@ == old(out)@ + bytes@,
{
    let mut i: usize = 0;
    while i < bytes.len()
        invariant
            i <= bytes@.len(),
            out@ == old(out)@ + bytes@.take(i as int),
        decreases bytes@.len() - i,
    {
        out.push(bytes[i]);
        assert(out@ =~= old(out)@ + bytes@.take(i as int + 1));
        i = i + 1;
    }
    assert(bytes@.take(bytes@.len() as int) =~= bytes@);
}

/// Append a length-delimited string field, omitted when empty.
fn push_string_field(out: &mut Vec<u8>, tag: u8, s: &str)
    ensures
        final(out)@ == old(out)@ + encoded_string_field(tag, s@),
{
    let bytes = s.as_bytes();
    if bytes.len() == 0 {
        assert(out@ =~= old(out)@ + encoded_string_field(tag, s@));
        return ;
    }
    out.push(tag);
    push_varint(out, bytes.len() as u64);
    push_bytes(out, bytes);
    assert(out@ =~= old(out)@ + encoded_string_field(tag, s@)) by {
        assert(bytes@ == encode_utf8(s@));
    }
}

/// Append a label message (without its enclosing field header).
fn push_label(out: &mut Vec<u8>, l: &Label)
    ensures
        final(out)@ == old(out)@ + encoded_label(l@),
{
    push_string_field(out, 0x0a, l.name.as_str());
    push_string_field(out, 0x12, l.value.as_str());
    assert(out@ =~= old(out)@ + encoded_label(l@));
}

/// Append a sample message (without its enclosing field header).
fn push_sample(out: &mut Vec<u8>, s: &Sample)
    ensures
        final(out)@ == old(out)@ + encoded_sample(*s),
{
    let ghost mid = out@;
    if !(s.value_bits == 0 || s.value_bits == 0x8000_0000_0000_0000) {
        let n = s.value_bits;
        out.push(0x09);
        assert((n & 0xff) < 256 && ((n >> 8) & 0xff) < 256 && ((n >> 16) & 0xff) < 256 && ((n
            >> 24) & 0xff) < 256 && ((n >> 32) & 0xff) < 256 && ((n >> 40) & 0xff) < 256 && ((n
            >> 48) & 0xff) < 256 && ((n >> 56) & 0xff) < 256) by (bit_vector);
        out.push((n & 0xff) as u8);
        out.push(((n >> 8) & 0xff) as u8);
        out.push(((n >> 16) & 0xff) as u8);
        out.push(((n >> 24) & 0xff) as u8);
        out.push(((n >> 32) & 0xff) as u8);
        out.push(((n >> 40) & 0xff) as u8);
        out.push(((n >> 48) & 0xff) as u8);
        out.push(((n >> 56) & 0xff) as u8);
        assert(out@ =~= old(out)@ + (seq![0x09u8] + fixed64_le(n)));
    }
    let ghost after_value = out@;
    if s.timestamp != 0 {
        let t = s.timestamp;
        let bits = t as u64;
        proof {
            assert(t as u64 == i64_bits(t)) by (bit_vector)
                requires
                    t != 0,
            ;
        }
        out.push(0x10);
        push_varint(out, bits);
        assert(out@ =~= after_value + (seq![0x10u8] + varint(i64_bits(t) as nat)));
    }
    assert(out@ =~= old(out)@ + encoded_sample(*s));
}

/// Append a series message (without its enclosing field header).
fn push_series(out: &mut Vec<u8>, ts: &TimeSeries)
    ensures
        final(out)@ == old(out)@ + encoded_series(ts@),
{
    let ghost lm = ts@.labels;
    let mut i: usize = 0;
    proof {
        assert(encoded_labels(lm.take(0)) =~= Seq::<u8>::empty());
        assert(out@ =~= old(out)@ + encoded_labels(lm.take(0)));
    }
    while i < ts.labels.len()
        invariant
            i <= ts.labels@.len(),
            lm == ts@.labels,
            out@ == old(out)@ + encoded_labels(lm.take(i as int)),
        decreases ts.labels@.len() - i,
    {
        let mut tmp: Vec<u8> = Vec::new();
        push_label(&mut tmp, &ts.labels[i]);
        assert(tmp@ =~= encoded_label(lm[i as int])) by {
            assert(lm[i as int] == ts.labels@[i as int]@);
        }
        out.push(0x0a);
        push_varint(out, tmp.len() as u64);
        let mut tmp = tmp;
        out.append(&mut tmp);
        proof {
            lemma_encoded_labels_push(lm.take(i as int), lm[i as int]);
            assert(lm.take(i as int).push(lm[i as int]) =~= lm.take(i as int + 1));
            assert(out@ =~= old(out)@ + encoded_labels(lm.take(i as int + 1)));
        }
        i = i + 1;
    }
    proof {
        assert(lm.take(lm.len() as int) =~= lm);
    }
    let ghost after_labels = out@;
    let ghost sm = ts@.samples;
    let mut j: usize = 0;
    proof {
        assert(encoded_samples(sm.take(0)) =~= Seq::<u8>::empty());
        assert(out@ =~= after_labels + encoded_samples(sm.take(0)));
    }
    while j < ts.samples.len()
        invariant
            j <= ts.samples@.len(),
            sm == ts@.samples,
            after_labels == old(out)@ + encoded_labels(ts@.labels),
            out@ == after_labels + encoded_samples(sm.take(j as int)),
        decreases ts.samples@.len() - j,
    {
        let mut tmp: Vec<u8> = Vec::new();
        push_sample(&mut tmp, &ts.samples[j]);
        assert(tmp@ =~= encoded_sample(sm[j as int]));
        out.push(0x12);
        push_varint(out, tmp.len() as u64);
        let mut tmp = tmp;
        out.append(&mut tmp);
        proof {
            lemma_encoded_samples_push(sm.take(j as int), sm[j as int]);
            assert(sm.take(j as int).push(sm[j as int]) =~= sm.take(j as int + 1));
            assert(out@ =~= after_labels + encoded_samples(sm.take(j as int + 1)));
        }
        j = j + 1;
    }
    proof {
        assert(sm.take(sm.len() as int) =~= sm);
        assert(out@ =~= old(out)@ + encoded_series(ts@));
    }
}

impl WriteRequest {
    /// Encode this write request as a protobuf message, after bringing
    /// every series into canonical internal order.
    ///
    /// NOTE: The remote-write API requires a snappy-compressed message,
    /// not a raw protobuf message.
    pub fn encode_proto3(self) -> (r: Vec<u8>)
        ensures
            r@ == encoded_request(within_canon(self@)),
    {
        let sorted = self.sorted();
        let ghost m = within_canon(self@).timeseries;
        let mut out: Vec<u8> = Vec::new();
        let mut i: usize = 0;
        proof {
            assert(encoded_series_list(m.take(0)) =~= Seq::<u8>::empty());
            assert(out@ =~= encoded_series_list(m.take(0)));
        }
        while i < sorted.timeseries.len()
            invariant
                i <= sorted.timeseries@.len(),
                sorted@.timeseries == m,
                out@ == encoded_series_list(m.take(i as int)),
            decreases sorted.timeseries@.len() - i,
        {
            let mut tmp: Vec<u8> = Vec::new();
            push_series(&mut tmp, &sorted.timeseries[i]);
            assert(tmp@ =~= encoded_series(m[i as int])) by {
                assert(m[i as int] == sorted.timeseries@[i as int]@);
            }
            out.push(0x0a);
            push_varint(&mut out, tmp.len() as u64);
            let mut tmp = tmp;
            out.append(&mut tmp);
            proof {
                lemma_encoded_series_list_push(m.take(i as int), m[i as int]);
                assert(m.take(i as int).push(m[i as int]) =~= m.take(i as int + 1));
                assert(out@ =~= encoded_series_list(m.take(i as int + 1)));
            }
            i = i + 1;
        }
        proof {
            assert(m.take(m.len() as int) =~= m);
        }
        out
    }
}

} // verus!
