//! The request assembler: the compressed payload wrapped in the
//! transport envelope the remote-write protocol requires.

use vstd::prelude::*;
use vstd::string::StringExecFns;

use crate::canon::within_canon;
use crate::compress::snappy_input_fits;
use crate::compress::snappy_of;
use crate::compress::EncodeError;
use crate::encode::encoded_request;
use crate::order::str_eq;
use crate::types::WriteRequest;

verus! {

/// A transport-agnostic request descriptor: verb, endpoint, headers and
/// body. The external transport sends it; this library never does I/O.
#[derive(Debug)]
pub struct HttpRequest {
    pub method: String,
    pub url: String,
    pub headers: Vec<(String, String)>,
    pub body: Vec<u8>,
}

/// The views of a header list.
pub open spec fn headers_model(hs: Seq<(String, String)>) -> Seq<(Seq<char>, Seq<char>)> {
    hs.map_values(|p: (String, String)| (p.0@, p.1@))
}

/// The fixed headers of a remote-write request, given the caller's
/// identification string. Names are kept lower-case, as HTTP header
/// names are case-insensitive, so a caller-supplied header can override
/// any of them by string equality.
pub open spec fn fixed_headers(user_agent: Seq<char>) -> Seq<(Seq<char>, Seq<char>)> {
    seq![
        ("content-type"@, "application/x-protobuf"@),
        ("x-prometheus-remote-write-version"@, "0.1.0"@),
        ("content-encoding"@, "snappy"@),
        ("user-agent"@, user_agent),
    ]
}

/// A header list with one header set: the first header of that name is
/// replaced, or the pair is appended.
pub open spec fn with_header(
    hs: Seq<(Seq<char>, Seq<char>)>,
    name: Seq<char>,
    value: Seq<char>,
) -> Seq<(Seq<char>, Seq<char>)>
    decreases hs.len(),
{
    if hs.len() == 0 {
        seq![(name, value)]
    } else if hs[0].0 == name {
        hs.update(0, (name, value))
    } else {
        seq![hs[0]] + with_header(hs.drop_first(), name, value)
    }
}

/// `with_header` replaces at the first index with that name, or appends.
pub(crate) proof fn lemma_with_header_at(
    hs: Seq<(Seq<char>, Seq<char>)>,
    name: Seq<char>,
    value: Seq<char>,
    k: int,
)
    requires
        0 <= k <= hs.len(),
        forall|j: int| 0 <= j < k ==> hs[j].0 != name,
        k < hs.len() ==> hs[k].0 == name,
    ensures
        with_header(hs, name, value) == if k == hs.len() {
            hs.push((name, value))
        } else {
            hs.update(k, (name, value))
        },
    decreases k,
{
    if k == 0 {
        if hs.len() == 0 {
            assert(with_header(hs, name, value) =~= hs.push((name, value)));
        }
    } else {
        lemma_with_header_at(hs.drop_first(), name, value, k - 1);
        if k == hs.len() {
            assert(with_header(hs, name, value) =~= hs.push((name, value)));
        } else {
            assert(with_header(hs, name, value) =~= hs.update(k, (name, value)));
        }
    }
}

/// Every entry of a header list with one header set is either that
/// header or an entry of the original list.
pub(crate) proof fn lemma_with_header_entries(
    hs: Seq<(Seq<char>, Seq<char>)>,
    name: Seq<char>,
    value: Seq<char>,
)
    ensures
        forall|k: int|
            0 <= k < with_header(hs, name, value).len() ==> #[trigger] with_header(
                hs,
                name,
                value,
            )[k] == (name, value) || hs.contains(with_header(hs, name, value)[k]),
    decreases hs.len(),
{
    let w = with_header(hs, name, value);
    if hs.len() == 0 {
    } else if hs[0].0 == name {
        assert forall|k: int| 0 <= k < w.len() implies #[trigger] w[k] == (name, value)
            || hs.contains(w[k]) by {
            if k != 0 {
                assert(w[k] == hs[k]);
            }
        }
    } else {
        lemma_with_header_entries(hs.drop_first(), name, value);
        let w0 = with_header(hs.drop_first(), name, value);
        assert forall|k: int| 0 <= k < w.len() implies #[trigger] w[k] == (name, value)
            || hs.contains(w[k]) by {
            if k == 0 {
                assert(w[0] == hs[0]);
            } else {
                assert(w[k] == w0[k - 1]);
                if w0[k - 1] == (name, value) {
                } else {
                    let j = choose|j: int|
                        0 <= j < hs.drop_first().len() && hs.drop_first()[j] == w0[k - 1];
                    assert(hs[j + 1] == w0[k - 1]);
                }
            }
        }
    }
}

impl HttpRequest {
    /// Set a header: replace the first one of that name, or append it.
    #[verifier::loop_isolation(false)]
    pub fn set_header(&mut self, name: &str, value: &str)
        ensures
            final(self).method@ == old(self).method@,
            final(self).url@ == old(self).url@,
            final(self).body@ == old(self).body@,
            headers_model(final(self).headers@) == with_header(
                headers_model(old(self).headers@),
                name@,
                value@,
            ),
    {
        let ghost hm = headers_model(self.headers@);
        let mut k: usize = 0;
        let mut found = false;
        while k < self.headers.len() && !found
            invariant
                k <= self.headers@.len(),
                forall|j: int| 0 <= j < k ==> hm[j].0 != name@,
                found ==> k < self.headers@.len() && hm[k as int].0 == name@,
            decreases self.headers@.len() - k, (if found { 0int } else { 1int }),
        {
            assert(hm[k as int] == (self.headers@[k as int].0@, self.headers@[k as int].1@));
            if str_eq(self.headers[k].0.as_str(), name) {
                found = true;
            } else {
                k = k + 1;
            }
        }
        let pair = (String::from_str(name), String::from_str(value));
        if found {
            proof {
                lemma_with_header_at(hm, name@, value@, k as int);
            }
            let _ = self.headers.remove(k);
            self.headers.insert(k, pair);
            assert(headers_model(self.headers@) =~= hm.update(k as int, (name@, value@)));
        } else {
            proof {
                lemma_with_header_at(hm, name@, value@, hm.len() as int);
            }
            self.headers.push(pair);
            assert(headers_model(self.headers@) =~= hm.push((name@, value@)));
        }
    }
}

impl WriteRequest {
    /// Build a fully prepared request descriptor for a remote-write
    /// endpoint: POST, the protocol's fixed headers, and the compressed
    /// payload as body.
    pub fn build_http_request(self, endpoint: &str, user_agent: &str) -> (r: Result<
        HttpRequest,
        EncodeError,
    >)
        ensures
            (r is Ok) == snappy_input_fits(encoded_request(within_canon(self@)).len()),
            r matches Ok(h) ==> h.method@ == "POST"@ && h.url@ == endpoint@ && headers_model(
                h.headers@,
            ) == fixed_headers(user_agent@) && h.body@ == snappy_of(
                encoded_request(within_canon(self@)),
            ),
    {
        let body = match self.encode_compressed() {
            Ok(b) => b,
            Err(e) => {
                return Err(e);
            },
        };
        let mut headers: Vec<(String, String)> = Vec::new();
        headers.push(
            (String::from_str("content-type"), String::from_str("application/x-protobuf")),
        );
        headers.push(
            (String::from_str("x-prometheus-remote-write-version"), String::from_str("0.1.0")),
        );
        headers.push((String::from_str("content-encoding"), String::from_str("snappy")));
        headers.push((String::from_str("user-agent"), String::from_str(user_agent)));
        assert(headers_model(headers@) =~= fixed_headers(user_agent@));
        Ok(
            HttpRequest {
                method: String::from_str("POST"),
                url: String::from_str(endpoint),
                headers,
                body,
            },
        )
    }
}

} // verus!
