//! The command-line front end as a pure decision core: argument parsing
//! and validation, and the plan of what to do. Reading files, taking the
//! current time and sending the request stay with the caller.

use vstd::prelude::*;
use vstd::string::StringExecFns;
use vstd::string::StringSliceAdditionalSpecFns;

use crate::compress::EncodeError;
use crate::order::str_eq;
use crate::request::fixed_headers;
use crate::request::headers_model;
use crate::request::with_header;
use crate::request::HttpRequest;
use crate::types::Label;
use crate::types::LabelModel;
use crate::types::RequestModel;
use crate::types::Sample;
use crate::types::SeriesModel;
use crate::types::TimeSeries;
use crate::types::WriteRequest;

verus! {

/// The type of a manually specified metric.
#[derive(Clone, Copy, PartialEq, Eq, Structural, Debug)]
pub enum MetricType {
    Counter,
    Gauge,
    Summary,
    Histogram,
    Untyped,
}

/// What to write: one metric given on the command line, or a file of
/// exposition-format text (`-` for standard input).
#[derive(Debug)]
pub enum MetricOrFile {
    Metric { name: String, kind: MetricType, labels: Vec<(String, String)>, value: String },
    File(String),
}

/// The validated arguments of a write invocation.
#[derive(Debug)]
pub struct Args {
    pub url: String,
    pub timeout_secs: Option<u64>,
    pub input: MetricOrFile,
    pub headers: Vec<(String, String)>,
}

/// The parsed command.
#[derive(Debug)]
pub enum Cmd {
    Help,
    Version,
    Run(Args),
}

/// A rejected command line, with a human-readable cause.
#[derive(Debug)]
pub struct CliError {
    pub message: String,
}

impl CliError {
    /// A human-readable description of the failure.
    pub fn message(&self) -> (r: String)
        ensures
            r@ == self.message@,
    {
        self.message.clone()
    }
}

/// The version this library reports for itself.
pub fn crate_version() -> (r: &'static str)
    ensures
        r@ == "0.1.0"@,
{
    "0.1.0"
}

/// What url::Url::parse makes of a string: the normalized text of the
/// URL, or nothing when the string is not a valid absolute URL.
pub uninterp spec fn url_normalized(s: Seq<char>) -> Option<Seq<char>>;

/// Relies on url::Url::parse and Url::as_str: validation and
/// normalization of an absolute URL, a function of the input alone.
#[verifier::external_body]
fn parse_url(s: &str) -> (r: Option<String>)
    ensures
        (r is Some) == (url_normalized(s@) is Some),
        r matches Some(u) ==> Some(u@) == url_normalized(s@),
{
    match url::Url::parse(s) {
        Ok(u) => Some(u.as_str().to_string()),
        Err(_) => None,
    }
}

/// What http::HeaderName::from_str makes of a string: the lower-cased
/// name, or nothing when it is not a valid header name.
pub uninterp spec fn header_name_normalized(s: Seq<char>) -> Option<Seq<char>>;

/// Relies on http::HeaderName::from_str and as_str: validation and
/// lower-casing of a header name, a function of the input alone.
#[verifier::external_body]
fn parse_header_name(s: &str) -> (r: Option<String>)
    ensures
        (r is Some) == (header_name_normalized(s@) is Some),
        r matches Some(n) ==> Some(n@) == header_name_normalized(s@),
{
    match s.parse::<http::header::HeaderName>() {
        Ok(n) => Some(n.as_str().to_string()),
        Err(_) => None,
    }
}

/// Whether http::HeaderValue::from_str accepts a string, a function of
/// the input alone.
pub uninterp spec fn header_value_ok(s: Seq<char>) -> bool;

/// Relies on http::HeaderValue::from_str: validation of a header value.
#[verifier::external_body]
fn check_header_value(s: &str) -> (r: bool)
    ensures
        r == header_value_ok(s@),
{
    s.parse::<http::header::HeaderValue>().is_ok()
}

/// A stored header entry: a normalized, valid name and a value the
/// transport accepts.
pub open spec fn header_entry_ok(p: (Seq<char>, Seq<char>)) -> bool {
    (exists|s: Seq<char>| header_name_normalized(s) == Some(p.0)) && header_value_ok(p.1)
}

/// A stored label entry: a non-empty key and a non-empty value.
pub open spec fn label_entry_ok(p: (Seq<char>, Seq<char>)) -> bool {
    p.0.len() > 0 && p.1.len() > 0
}

/// A decimal digit, as a byte.
pub open spec fn is_digit_byte(x: u8) -> bool {
    48 <= x <= 57
}

/// How many digits the byte sequence starts with.
pub open spec fn digits_prefix(b: Seq<u8>) -> int
    decreases b.len(),
{
    if b.len() > 0 && is_digit_byte(b[0]) {
        1 + digits_prefix(b.drop_first())
    } else {
        0
    }
}

/// An ASCII letter lower-cased; any other byte unchanged.
pub open spec fn lower_byte(x: u8) -> u8 {
    if 65 <= x <= 90 {
        (x + 32) as u8
    } else {
        x
    }
}

/// The byte sequence with its ASCII letters lower-cased.
pub open spec fn lower_bytes(b: Seq<u8>) -> Seq<u8> {
    b.map_values(|x: u8| lower_byte(x))
}

/// The special words the double grammar accepts, case-insensitively.
pub open spec fn special_float_word(b: Seq<u8>) -> bool {
    lower_bytes(b) == vstd::utf8::encode_utf8("inf"@) || lower_bytes(b) == vstd::utf8::encode_utf8(
        "infinity"@,
    ) || lower_bytes(b) == vstd::utf8::encode_utf8("nan"@)
}

/// An exponent part: `e` or `E`, an optional sign, then only digits,
/// at least one.
pub open spec fn float_exponent_ok(b: Seq<u8>) -> bool {
    b.len() >= 1 && (b[0] == 101 || b[0] == 69) && {
        let rest = if b.len() >= 2 && (b[1] == 43 || b[1] == 45) {
            b.skip(2)
        } else {
            b.skip(1)
        };
        rest.len() > 0 && digits_prefix(rest) == rest.len()
    }
}

/// A number: digits, an optional point and fraction (at least one digit
/// on one side of the point), and an optional exponent, with nothing
/// after it.
pub open spec fn float_number_ok(b: Seq<u8>) -> bool {
    let d1 = digits_prefix(b);
    let rest1 = b.skip(d1);
    let has_dot = rest1.len() > 0 && rest1[0] == 46;
    let d2 = if has_dot {
        digits_prefix(rest1.drop_first())
    } else {
        0
    };
    let rest2 = if has_dot {
        rest1.skip(1 + d2)
    } else {
        rest1
    };
    (d1 > 0 || (has_dot && d2 > 0)) && (rest2.len() == 0 || float_exponent_ok(rest2))
}

/// The grammar the standard library documents for parsing doubles: an
/// optional sign, then `inf`, `infinity` or `nan` (case-insensitive),
/// or a number, over the string's UTF-8 bytes.
pub open spec fn float_literal(s: Seq<char>) -> bool {
    let b = vstd::utf8::encode_utf8(s);
    let t = if b.len() > 0 && (b[0] == 43 || b[0] == 45) {
        b.drop_first()
    } else {
        b
    };
    special_float_word(t) || float_number_ok(t)
}

/// A run of `d` digits that ends at the end or at a non-digit is the
/// whole digit prefix.
proof fn lemma_digits_prefix_at(b: Seq<u8>, d: int)
    requires
        0 <= d <= b.len(),
        forall|k: int| 0 <= k < d ==> is_digit_byte(b[k]),
        d < b.len() ==> !is_digit_byte(b[d]),
    ensures
        digits_prefix(b) == d,
    decreases d,
{
    if d == 0 {
    } else {
        lemma_digits_prefix_at(b.drop_first(), d - 1);
    }
}

/// Whether the bytes from `i` on, lower-cased, are exactly the word.
fn rest_is_word(b: &[u8], i: usize, word: &str) -> (r: bool)
    requires
        i <= b@.len(),
    ensures
        r == (lower_bytes(b@.skip(i as int)) == word.spec_bytes()),
{
    let ghost t = b@.skip(i as int);
    let w = word.as_bytes();
    let n = b.len();
    if n - i != w.len() {
        proof {
            assert(lower_bytes(t).len() == t.len());
        }
        return false;
    }
    let mut k: usize = 0;
    while k < w.len()
        invariant
            k <= w@.len(),
            i + w@.len() <= n,
            n == b@.len(),
            t == b@.skip(i as int),
            t.len() == w@.len(),
            w@ == word.spec_bytes(),
            forall|m: int| 0 <= m < k ==> lower_bytes(t)[m] == w@[m],
        decreases w@.len() - k,
    {
        let mut c = b[i + k];
        proof {
            assert(t[k as int] == b@[i + k]);
            assert(lower_bytes(t)[k as int] == lower_byte(t[k as int]));
        }
        if 65 <= c && c <= 90 {
            c = c + 32;
        }
        if c != w[k] {
            proof {
                if lower_bytes(t) == w@ {
                    assert(lower_bytes(t)[k as int] == w@[k as int]);
                }
            }
            return false;
        }
        k = k + 1;
    }
    proof {
        assert(lower_bytes(t) =~= w@);
    }
    true
}

/// The first position at or after `start` that does not hold a digit.
fn digits_end(b: &[u8], start: usize) -> (j: usize)
    requires
        start <= b@.len(),
    ensures
        start <= j <= b@.len(),
        j - start == digits_prefix(b@.skip(start as int)),
{
    let mut i = start;
    while i < b.len() && 48 <= b[i] && b[i] <= 57
        invariant
            start <= i <= b@.len(),
            forall|k: int| start <= k < i ==> is_digit_byte(b@[k]),
        decreases b@.len() - i,
    {
        i = i + 1;
    }
    proof {
        let t = b@.skip(start as int);
        assert(forall|k: int| 0 <= k < t.len() ==> t[k] == b@[start + k]);
        lemma_digits_prefix_at(t, i - start);
    }
    i
}

/// Whether the bytes from `start` on are a number of the double
/// grammar: digits, optional point and fraction, optional exponent.
fn scan_number(b: &[u8], start: usize) -> (r: bool)
    requires
        start <= b@.len(),
    ensures
        r == float_number_ok(b@.skip(start as int)),
{
    let ghost t = b@.skip(start as int);
    proof {
        assert(forall|k: int| 0 <= k < t.len() ==> t[k] == b@[start + k]);
    }
    let p1 = digits_end(b, start);
    let ghost d1 = digits_prefix(t);
    let ghost rest1 = t.skip(d1);
    proof {
        assert(t.skip(p1 - start) =~= b@.skip(p1 as int));
        assert(forall|k: int| 0 <= k < rest1.len() ==> rest1[k] == b@[p1 + k]);
    }
    let has_dot = p1 < b.len() && b[p1] == 46;
    let p2 = if has_dot {
        digits_end(b, p1 + 1)
    } else {
        p1
    };
    let ghost d2 = if has_dot {
        digits_prefix(rest1.drop_first())
    } else {
        0int
    };
    let ghost rest2 = if has_dot {
        rest1.skip(1 + d2)
    } else {
        rest1
    };
    proof {
        if has_dot {
            assert(rest1.drop_first() =~= b@.skip(p1 + 1));
            assert(d2 == p2 - (p1 + 1));
            assert(rest2 =~= rest1.drop_first().skip(d2));
        }
        assert(rest2 =~= b@.skip(p2 as int));
        assert(forall|k: int| 0 <= k < rest2.len() ==> rest2[k] == b@[p2 + k]);
    }
    let mantissa = p1 > start || (has_dot && p2 > p1 + 1);
    if !mantissa {
        return false;
    }
    if p2 == b.len() {
        return true;
    }
    if !(b[p2] == 101 || b[p2] == 69) {
        return false;
    }
    let p3 = if p2 + 1 < b.len() && (b[p2 + 1] == 43 || b[p2 + 1] == 45) {
        p2 + 2
    } else {
        p2 + 1
    };
    let ghost expd = if rest2.len() >= 2 && (rest2[1] == 43 || rest2[1] == 45) {
        rest2.skip(2)
    } else {
        rest2.skip(1)
    };
    proof {
        assert(expd =~= b@.skip(p3 as int));
    }
    let p4 = digits_end(b, p3);
    proof {
        if p4 > p3 && p4 == b.len() {
            assert(float_exponent_ok(rest2));
        } else {
            if p3 >= b@.len() {
                assert(expd.len() == 0);
            } else if p4 == p3 {
                assert(expd.len() > 0 && digits_prefix(expd) == 0);
            } else {
                assert(digits_prefix(expd) < expd.len());
            }
        }
    }
    p4 > p3 && p4 == b.len()
}

/// Whether a string is a floating-point literal under [`float_literal`],
/// the grammar the standard library documents for parsing doubles.
pub fn is_float_literal(s: &str) -> (r: bool)
    ensures
        r == float_literal(s@),
{
    let b = s.as_bytes();
    let mut i: usize = 0;
    if i < b.len() && (b[i] == 43 || b[i] == 45) {
        i = i + 1;
    }
    proof {
        if b@.len() > 0 && (b@[0] == 43 || b@[0] == 45) {
            assert(b@.skip(i as int) =~= b@.drop_first());
        } else {
            assert(b@.skip(i as int) =~= b@);
        }
    }
    if rest_is_word(b, i, "inf") || rest_is_word(b, i, "infinity") || rest_is_word(b, i, "nan") {
        return true;
    }
    scan_number(b, i)
}

/// What str::parse::<u64> makes of a string, or nothing.
pub uninterp spec fn u64_parsed(s: Seq<char>) -> Option<u64>;

/// Relies on str::parse::<u64>: decimal integer parsing, a function of
/// the input alone.
#[verifier::external_body]
fn parse_u64(s: &str) -> (r: Option<u64>)
    ensures
        (r is Some) == (u64_parsed(s@) is Some),
        r matches Some(n) ==> Some(n) == u64_parsed(s@),
{
    match s.parse::<u64>() {
        Ok(n) => Some(n),
        Err(_) => None,
    }
}

/// What str::trim leaves of a string: whitespace stripped from both
/// ends, a function of the input alone.
pub uninterp spec fn trimmed(s: Seq<char>) -> Seq<char>;

/// Relies on str::trim.
#[verifier::external_body]
pub(crate) fn str_trim(s: &str) -> (r: String)
    ensures
        r@ == trimmed(s@),
{
    s.trim().to_string()
}

/// What str::split_once('=') makes of a string: the parts before and
/// after the first equals sign, or nothing, a function of the input
/// alone.
pub uninterp spec fn split_eq(s: Seq<char>) -> Option<(Seq<char>, Seq<char>)>;

/// Relies on str::split_once with '='.
#[verifier::external_body]
fn split_eq_once(s: &str) -> (r: Option<(String, String)>)
    ensures
        (r is Some) == (split_eq(s@) is Some),
        r matches Some(p) ==> Some((p.0@, p.1@)) == split_eq(s@),
{
    s.split_once('=').map(|(a, b)| (a.to_string(), b.to_string()))
}

/// Whether the string's UTF-8 bytes end in the suffix's bytes.
pub open spec fn ends_with_spec(s: Seq<char>, suffix: Seq<char>) -> bool {
    let sb = vstd::utf8::encode_utf8(s);
    let xb = vstd::utf8::encode_utf8(suffix);
    sb.len() >= xb.len() && sb.skip(sb.len() - xb.len()) == xb
}

/// Byte-wise suffix test.
fn str_ends_with(s: &str, suffix: &str) -> (r: bool)
    ensures
        r == ends_with_spec(s@, suffix@),
{
    let sb = s.as_bytes();
    let xb = suffix.as_bytes();
    if sb.len() < xb.len() {
        return false;
    }
    let total: usize = sb.len();
    let start: usize = total - xb.len();
    let mut i: usize = 0;
    while i < xb.len()
        invariant
            i <= xb@.len(),
            xb@.len() <= sb@.len(),
            total == sb@.len(),
            start == sb@.len() - xb@.len(),
            sb@ == s.spec_bytes(),
            xb@ == suffix.spec_bytes(),
            forall|k: int| 0 <= k < i ==> sb@[start + k] == xb@[k],
        decreases xb@.len() - i,
    {
        if sb[start + i] != xb[i] {
            proof {
                if ends_with_spec(s@, suffix@) {
                    assert(sb@.skip(start as int)[i as int] == sb@[start + i]);
                }
            }
            return false;
        }
        i = i + 1;
    }
    proof {
        assert(sb@.skip(start as int) =~= xb@);
    }
    true
}

/// A message built from a static part.
fn cli_error(msg: &str) -> (r: CliError)
    ensures
        r.message@ == msg@,
{
    CliError { message: String::from_str(msg) }
}

/// A message built from two static parts around a value.
fn cli_error_with(prefix: &str, value: &str, suffix: &str) -> (r: CliError)
    ensures
        r.message@ == prefix@ + value@ + suffix@,
{
    let mut m = String::from_str(prefix);
    m.append(value);
    m.append(suffix);
    CliError { message: m }
}

/// Insert a pair into a key/value list: replace the first entry with
/// that key, or append.
fn upsert_pair(v: &mut Vec<(String, String)>, key: String, value: String)
    ensures
        headers_model(final(v)@) == with_header(headers_model(old(v)@), key@, value@),
{
    let ghost hm = headers_model(v@);
    let mut k: usize = 0;
    let mut found = false;
    while k < v.len() && !found
        invariant
            k <= v@.len(),
            hm == headers_model(v@),
            forall|j: int| 0 <= j < k ==> hm[j].0 != key@,
            found ==> k < v@.len() && hm[k as int].0 == key@,
        decreases v@.len() - k, (if found { 0int } else { 1int }),
    {
        assert(hm[k as int] == (v@[k as int].0@, v@[k as int].1@));
        if v[k].0 == key {
            found = true;
        } else {
            k = k + 1;
        }
    }
    if found {
        proof {
            crate::request::lemma_with_header_at(hm, key@, value@, k as int);
        }
        let _ = v.remove(k);
        v.insert(k, (key, value));
        assert(headers_model(v@) =~= hm.update(k as int, (key@, value@)));
    } else {
        proof {
            crate::request::lemma_with_header_at(hm, key@, value@, hm.len() as int);
        }
        v.push((key, value));
        assert(headers_model(v@) =~= hm.push((key@, value@)));
    }
}

/// Mathematical view of a run input.
pub enum InputModel {
    Metric { name: Seq<char>, kind: MetricType, labels: Seq<(Seq<char>, Seq<char>)>, value: Seq<char> },
    File(Seq<char>),
}

/// Mathematical view of the arguments of a run.
pub struct ArgsModel {
    pub url: Seq<char>,
    pub timeout_secs: Option<u64>,
    pub input: InputModel,
    pub headers: Seq<(Seq<char>, Seq<char>)>,
}

/// Mathematical view of a command.
pub enum CmdModel {
    Help,
    Version,
    Run(ArgsModel),
}

/// The view of an input.
pub open spec fn input_view(m: &MetricOrFile) -> InputModel {
    match m {
        MetricOrFile::Metric { name, kind, labels, value } => InputModel::Metric {
            name: name@,
            kind: *kind,
            labels: headers_model(labels@),
            value: value@,
        },
        MetricOrFile::File(f) => InputModel::File(f@),
    }
}

/// The view of an argument set.
pub open spec fn args_view(a: &Args) -> ArgsModel {
    ArgsModel {
        url: a.url@,
        timeout_secs: a.timeout_secs,
        input: input_view(&a.input),
        headers: headers_model(a.headers@),
    }
}

/// The view of a command.
pub open spec fn cmd_view(c: &Cmd) -> CmdModel {
    match c {
        Cmd::Help => CmdModel::Help,
        Cmd::Version => CmdModel::Version,
        Cmd::Run(a) => CmdModel::Run(args_view(a)),
    }
}

/// The scanner's state between arguments.
pub struct ParseState {
    pub url: Option<Seq<char>>,
    pub name: Option<Seq<char>>,
    pub kind: Option<MetricType>,
    pub labels: Seq<(Seq<char>, Seq<char>)>,
    pub number: Option<Seq<char>>,
    pub headers: Seq<(Seq<char>, Seq<char>)>,
    pub timeout: Option<u64>,
    pub input_file: Option<Seq<char>>,
}

/// The state before any argument is read.
pub open spec fn initial_state() -> ParseState {
    ParseState {
        url: None,
        name: None,
        kind: None,
        labels: Seq::empty(),
        number: None,
        headers: Seq::empty(),
        timeout: None,
        input_file: None,
    }
}

/// What the scan makes of its collected state once the arguments are
/// exhausted: a URL is required, a file excludes every metric argument,
/// a metric needs a name and a value, and its kind defaults to counter
/// exactly when the name ends in `_total`.
pub open spec fn finish_parse(st: ParseState) -> Result<CmdModel, Seq<char>> {
    match st.url {
        None => Err("missing required argument -u/--url"@),
        Some(u) => match st.input_file {
            Some(f) => if st.name is Some {
                Err("argument -n/--name cannot be used with -f/--file"@)
            } else if st.kind is Some {
                Err("argument -t/--type cannot be used with -f/--file"@)
            } else if st.number is Some {
                Err("argument -v/--value cannot be used with -f/--file"@)
            } else if st.labels.len() > 0 {
                Err("argument -l/--label cannot be used with -f/--file"@)
            } else {
                Ok(
                    CmdModel::Run(
                        ArgsModel {
                            url: u,
                            timeout_secs: st.timeout,
                            input: InputModel::File(f),
                            headers: st.headers,
                        },
                    ),
                )
            },
            None => match st.name {
                None => Err("missing required argument -n/--name"@),
                Some(n) => match st.number {
                    None => Err("missing required argument -v/--value"@),
                    Some(v) => {
                        let kind = match st.kind {
                            Some(k) => k,
                            None => if ends_with_spec(n, "_total"@) {
                                MetricType::Counter
                            } else {
                                MetricType::Gauge
                            },
                        };
                        Ok(
                            CmdModel::Run(
                                ArgsModel {
                                    url: u,
                                    timeout_secs: st.timeout,
                                    input: InputModel::Metric {
                                        name: n,
                                        kind,
                                        labels: st.labels,
                                        value: v,
                                    },
                                    headers: st.headers,
                                },
                            ),
                        )
                    },
                },
            },
        },
    }
}

/// The scan from argument `i` on, mirroring [`Cmd::parse`] branch by
/// branch over the views of the arguments; an `Err` carries the
/// message of the rejection.
pub open spec fn parse_args_from(st: ParseState, args: Seq<Seq<char>>, i: int) -> Result<
    CmdModel,
    Seq<char>,
>
    decreases args.len() - i,
{
    if i < 0 || i >= args.len() {
        finish_parse(st)
    } else {
        let a = args[i];
        if a == "--help"@ {
            Ok(CmdModel::Help)
        } else if a == "--version"@ {
            Ok(CmdModel::Version)
        } else if a == "-u"@ || a == "--url"@ {
            if st.url is Some {
                Err("argument -u/--url can only be specified once"@)
            } else if i + 1 >= args.len() {
                Err("-u/--url argument requires a value (Prometheus URL)"@)
            } else {
                match url_normalized(args[i + 1]) {
                    Some(u) => parse_args_from(
                        (ParseState { url: Some(u), ..st }),
                        args,
                        i + 2,
                    ),
                    None => Err("invalid url '"@ + args[i + 1] + "' for argument -u/--url"@),
                }
            }
        } else if a == "-h"@ || a == "--header"@ {
            if i + 1 >= args.len() {
                Err("-h/--header argument requires a value (header pair X=Y)"@)
            } else {
                let pair = trimmed(args[i + 1]);
                match split_eq(pair) {
                    None => Err("-h/--header argument requires a key-value pair (X=Y)"@),
                    Some(kv) => {
                        let key = trimmed(kv.0);
                        if key.len() == 0 {
                            Err("argument -h/--header requires a non-empty key: '"@ + pair + "'"@)
                        } else {
                            match header_name_normalized(key) {
                                None => Err(
                                    "argument -h/--header: invalid header name '"@ + key + "'"@,
                                ),
                                Some(nm) => if !header_value_ok(kv.1) {
                                    Err(
                                        "argument -h/--header: invalid header value: '"@ + kv.1
                                            + "'"@,
                                    )
                                } else {
                                    parse_args_from(
                                        (ParseState {
                                            headers: with_header(st.headers, nm, kv.1),
                                            ..st
                                        }),
                                        args,
                                        i + 2,
                                    )
                                },
                            }
                        }
                    },
                }
            }
        } else if a == "--timeout"@ {
            if i + 1 >= args.len() {
                Err("--timeout argument requires a value (timeout in seconds)"@)
            } else {
                match u64_parsed(trimmed(args[i + 1])) {
                    None => Err("--timeout argument requires a number (timeout in seconds)"@),
                    Some(n) => parse_args_from(
                        (ParseState { timeout: Some(n), ..st }),
                        args,
                        i + 2,
                    ),
                }
            }
        } else if a == "-f"@ || a == "--file"@ {
            if st.input_file is Some {
                Err("argument -f/--file can only be specified once"@)
            } else if i + 1 >= args.len() {
                Err("-i/--input argument requires a value (file path)"@)
            } else {
                parse_args_from(
                    (ParseState { input_file: Some(args[i + 1]), ..st }),
                    args,
                    i + 2,
                )
            }
        } else if a == "-n"@ || a == "--name"@ {
            if st.name is Some {
                Err("argument -n/--name can only be specified once"@)
            } else if i + 1 >= args.len() {
                Err("-n/--name argument requires a value (metric name)"@)
            } else {
                let n = trimmed(args[i + 1]);
                if n.len() == 0 {
                    Err("argument -n/--name requires a non-empty value"@)
                } else {
                    parse_args_from((ParseState { name: Some(n), ..st }), args, i + 2)
                }
            }
        } else if a == "-t"@ || a == "--type"@ {
            if st.kind is Some {
                Err("argument -t/--type can only be specified once"@)
            } else if i + 1 >= args.len() {
                Err("-t/--type argument requires a value (metric type)"@)
            } else {
                let t = trimmed(args[i + 1]);
                if t == "counter"@ {
                    parse_args_from(
                        (ParseState { kind: Some(MetricType::Counter), ..st }),
                        args,
                        i + 2,
                    )
                } else if t == "gauge"@ {
                    parse_args_from(
                        (ParseState { kind: Some(MetricType::Gauge), ..st }),
                        args,
                        i + 2,
                    )
                } else if t == "histogram"@ || t == "summary"@ {
                    Err("metric type '"@ + t + "' is not supported yet"@)
                } else {
                    Err("unknown metric type '"@ + t + "'"@)
                }
            }
        } else if a == "-v"@ || a == "--value"@ {
            if st.number is Some {
                Err("argument -v/--value can only be specified once"@)
            } else if i + 1 >= args.len() {
                Err("-v/--value argument requires a value (number)"@)
            } else {
                let t = trimmed(args[i + 1]);
                if !float_literal(t) {
                    Err("-v/--value argument requires a number"@)
                } else {
                    parse_args_from((ParseState { number: Some(t), ..st }), args, i + 2)
                }
            }
        } else if a == "-l"@ || a == "--label"@ {
            if i + 1 >= args.len() {
                Err("-l/--label argument requires a value (label pair X=Y)"@)
            } else {
                let pair = trimmed(args[i + 1]);
                match split_eq(pair) {
                    None => Err("-l/--label argument requires a key-value pair (X=Y)"@),
                    Some(kv) => {
                        let key = trimmed(kv.0);
                        let val = trimmed(kv.1);
                        if key.len() == 0 {
                            Err("argument -l/--label requires a non-empty key: '"@ + pair + "'"@)
                        } else if val.len() == 0 {
                            Err(
                                "argument -l/--label requires a non-empty value: '"@ + pair
                                    + "'"@,
                            )
                        } else {
                            parse_args_from(
                                (ParseState { labels: with_header(st.labels, key, val), ..st }),
                                args,
                                i + 2,
                            )
                        }
                    },
                }
            }
        } else {
            Err("unknown argument '"@ + a + "'"@)
        }
    }
}

/// What a command line parses to: the scan from the first argument in
/// the empty state.
pub open spec fn parse_args(args: Seq<Seq<char>>) -> Result<CmdModel, Seq<char>> {
    parse_args_from(initial_state(), args, 0)
}

/// The view of an optional string.
pub open spec fn opt_str_view(o: &Option<String>) -> Option<Seq<char>> {
    match o {
        Some(s) => Some(s@),
        None => None,
    }
}

/// The scanner's state, read off the live variables of the scan.
pub open spec fn live_state(
    url: &Option<String>,
    name: &Option<String>,
    kind: Option<MetricType>,
    labels: &Vec<(String, String)>,
    number: &Option<String>,
    headers: &Vec<(String, String)>,
    timeout: Option<u64>,
    input_file: &Option<String>,
) -> ParseState {
    ParseState {
        url: opt_str_view(url),
        name: opt_str_view(name),
        kind,
        labels: headers_model(labels@),
        number: opt_str_view(number),
        headers: headers_model(headers@),
        timeout,
        input_file: opt_str_view(input_file),
    }
}

impl Cmd {
    /// Parse a command line.
    ///
    /// `--help` or `--version` anywhere in flag position wins; otherwise
    /// a URL is required, together with either a file or a metric
    /// (name and value, optional type and labels). Every invalid or
    /// repeated argument is rejected with a message naming it. The
    /// result is exactly what [`parse_args`] makes of the argument
    /// views, errors and their messages included.
    #[verifier::loop_isolation(false)]
    #[verifier::rlimit(100)]
    pub fn parse(args: &Vec<String>) -> (r: Result<Cmd, CliError>)
        ensures
            (r is Ok) == (parse_args(args@.map_values(|a: String| a@)) is Ok),
            r matches Ok(c) ==> Ok::<CmdModel, Seq<char>>(cmd_view(&c)) == parse_args(
                args@.map_values(|a: String| a@),
            ),
            r matches Err(e) ==> Err::<CmdModel, Seq<char>>(e.message@) == parse_args(
                args@.map_values(|a: String| a@),
            ),
            args@.len() > 0 && args@[0]@ == "--help"@ ==> (r matches Ok(c) && c is Help),
            args@.len() > 0 && args@[0]@ == "--version"@ ==> (r matches Ok(c) && c is Version),
            r matches Ok(c) ==> (c matches Cmd::Run(a) ==> (a.input matches MetricOrFile::Metric {
                name,
                ..
            } ==> name@.len() > 0)),
            r matches Ok(c) ==> (c matches Cmd::Run(a) ==> (exists|s: Seq<char>|
                url_normalized(s) == Some(a.url@))),
            r matches Ok(c) ==> (c matches Cmd::Run(a) ==> forall|k: int|
                0 <= k < a.headers@.len() ==> header_entry_ok(
                    #[trigger] headers_model(a.headers@)[k],
                )),
            r matches Ok(c) ==> (c matches Cmd::Run(a) ==> (a.input matches MetricOrFile::Metric {
                labels,
                ..
            } ==> forall|k: int|
                0 <= k < labels@.len() ==> label_entry_ok(
                    #[trigger] headers_model(labels@)[k],
                ))),
    {
        proof {
            reveal_strlit("--help");
            reveal_strlit("--version");
        }
        let ghost argsm = args@.map_values(|a: String| a@);
        proof {
            assert(forall|k: int| 0 <= k < args@.len() ==> argsm[k] == #[trigger] args@[k]@);
        }
        let mut url: Option<String> = None;
        let mut name: Option<String> = None;
        let mut kind: Option<MetricType> = None;
        let mut labels: Vec<(String, String)> = Vec::new();
        let mut number: Option<String> = None;
        let mut headers: Vec<(String, String)> = Vec::new();
        let mut timeout: Option<u64> = None;
        let mut input_file: Option<String> = None;

        let mut index: usize = 0;
        proof {
            assert(live_state(&url, &name, kind, &labels, &number, &headers, timeout, &input_file)
                == initial_state()) by {
                assert(headers_model(labels@) =~= Seq::<(Seq<char>, Seq<char>)>::empty());
                assert(headers_model(headers@) =~= Seq::<(Seq<char>, Seq<char>)>::empty());
            }
        }
        while index < args.len()
            invariant
                index <= args@.len(),
                parse_args_from(
                    live_state(&url, &name, kind, &labels, &number, &headers, timeout, &input_file),
                    argsm,
                    index as int,
                ) == parse_args(argsm),
                (name matches Some(n) ==> n@.len() > 0),
                (index > 0 ==> args@.len() > 0 && args@[0]@ != "--help"@ && args@[0]@
                    != "--version"@),
                (url matches Some(u) ==> exists|s: Seq<char>| url_normalized(s) == Some(u@)),
                forall|k: int|
                    0 <= k < headers@.len() ==> header_entry_ok(
                        #[trigger] headers_model(headers@)[k],
                    ),
                forall|k: int|
                    0 <= k < labels@.len() ==> label_entry_ok(
                        #[trigger] headers_model(labels@)[k],
                    ),
            decreases args@.len() - index,
        {
            let value = &args[index];
            let ghost i0 = index as int;
            let ghost st0 = live_state(
                &url,
                &name,
                kind,
                &labels,
                &number,
                &headers,
                timeout,
                &input_file,
            );
            proof {
                assert(value@ == argsm[i0]);
            }
            if str_eq(value.as_str(), "--help") {
                proof {
                    assert(args@[index as int]@ == "--help"@);
                    assert("--help"@.len() != "--version"@.len());
                    assert(parse_args(argsm) == Ok::<CmdModel, Seq<char>>(CmdModel::Help));
                }
                return Ok(Cmd::Help);
            } else if str_eq(value.as_str(), "--version") {
                proof {
                    assert(args@[index as int]@ == "--version"@);
                    assert("--help"@.len() != "--version"@.len());
                    assert(parse_args(argsm) == Ok::<CmdModel, Seq<char>>(CmdModel::Version));
                }
                return Ok(Cmd::Version);
            } else if str_eq(value.as_str(), "-u") || str_eq(value.as_str(), "--url") {
                if url.is_some() {
                    return Err(cli_error("argument -u/--url can only be specified once"));
                }
                index = index + 1;
                if index >= args.len() {
                    return Err(cli_error("-u/--url argument requires a value (Prometheus URL)"));
                }
                proof {
                    assert(args@[index as int]@ == argsm[i0 + 1]);
                }
                match parse_url(args[index].as_str()) {
                    Some(u) => {
                        proof {
                            assert(url_normalized(argsm[i0 + 1]) == Some(u@));
                        }
                        url = Some(u);
                    },
                    None => {
                        return Err(
                            cli_error_with(
                                "invalid url '",
                                args[index].as_str(),
                                "' for argument -u/--url",
                            ),
                        );
                    },
                }
                index = index + 1;
                proof {
                    let stn = live_state(
                        &url,
                        &name,
                        kind,
                        &labels,
                        &number,
                        &headers,
                        timeout,
                        &input_file,
                    );
                    assert(stn == (ParseState { url: url_normalized(argsm[i0 + 1]), ..st0 }));
                    assert(parse_args_from(stn, argsm, i0 + 2) == parse_args(argsm));
                }
            } else if str_eq(value.as_str(), "-h") || str_eq(value.as_str(), "--header") {
                index = index + 1;
                if index >= args.len() {
                    return Err(
                        cli_error("-h/--header argument requires a value (header pair X=Y)"),
                    );
                }
                proof {
                    assert(args@[index as int]@ == argsm[i0 + 1]);
                }
                let pair = str_trim(args[index].as_str());
                let (key, val) = match split_eq_once(pair.as_str()) {
                    Some(p) => p,
                    None => {
                        return Err(
                            cli_error("-h/--header argument requires a key-value pair (X=Y)"),
                        );
                    },
                };
                let key = str_trim(key.as_str());
                if key.as_str().is_empty() {
                    return Err(
                        cli_error_with(
                            "argument -h/--header requires a non-empty key: '",
                            pair.as_str(),
                            "'",
                        ),
                    );
                }
                let ghost trimmed_key = key@;
                let key = match parse_header_name(key.as_str()) {
                    Some(n) => n,
                    None => {
                        return Err(
                            cli_error_with(
                                "argument -h/--header: invalid header name '",
                                key.as_str(),
                                "'",
                            ),
                        );
                    },
                };
                if !check_header_value(val.as_str()) {
                    return Err(
                        cli_error_with(
                            "argument -h/--header: invalid header value: '",
                            val.as_str(),
                            "'",
                        ),
                    );
                }
                let ghost hm0 = headers_model(headers@);
                let ghost newkey = key@;
                let ghost newval = val@;
                proof {
                    assert(header_name_normalized(trimmed_key) == Some(newkey));
                }
                upsert_pair(&mut headers, key, val);
                proof {
                    crate::request::lemma_with_header_entries(hm0, newkey, newval);
                    assert(header_entry_ok((newkey, newval)));
                    assert forall|k: int|
                        0 <= k < headers@.len() implies header_entry_ok(
                        #[trigger] headers_model(headers@)[k],
                    ) by {
                        let entry = headers_model(headers@)[k];
                        if entry == (newkey, newval) {
                        } else {
                            let j = choose|j: int| 0 <= j < hm0.len() && hm0[j] == entry;
                            assert(header_entry_ok(hm0[j]));
                        }
                    }
                }
                index = index + 1;
                proof {
                    let stn = live_state(
                        &url,
                        &name,
                        kind,
                        &labels,
                        &number,
                        &headers,
                        timeout,
                        &input_file,
                    );
                    assert(stn == (ParseState {
                        headers: with_header(st0.headers, newkey, newval),
                        ..st0
                    }));
                    assert(parse_args_from(stn, argsm, i0 + 2) == parse_args(argsm));
                }
            } else if str_eq(value.as_str(), "--timeout") {
                index = index + 1;
                if index >= args.len() {
                    return Err(
                        cli_error("--timeout argument requires a value (timeout in seconds)"),
                    );
                }
                proof {
                    assert(args@[index as int]@ == argsm[i0 + 1]);
                }
                let t = str_trim(args[index].as_str());
                match parse_u64(t.as_str()) {
                    Some(n) => {
                        timeout = Some(n);
                    },
                    None => {
                        return Err(
                            cli_error("--timeout argument requires a number (timeout in seconds)"),
                        );
                    },
                }
                index = index + 1;
                proof {
                    let stn = live_state(
                        &url,
                        &name,
                        kind,
                        &labels,
                        &number,
                        &headers,
                        timeout,
                        &input_file,
                    );
                    assert(stn == (ParseState {
                        timeout: u64_parsed(trimmed(argsm[i0 + 1])),
                        ..st0
                    }));
                    assert(parse_args_from(stn, argsm, i0 + 2) == parse_args(argsm));
                }
            } else if str_eq(value.as_str(), "-f") || str_eq(value.as_str(), "--file") {
                if input_file.is_some() {
                    return Err(cli_error("argument -f/--file can only be specified once"));
                }
                index = index + 1;
                if index >= args.len() {
                    return Err(cli_error("-i/--input argument requires a value (file path)"));
                }
                proof {
                    assert(args@[index as int]@ == argsm[i0 + 1]);
                }
                input_file = Some(args[index].clone());
                index = index + 1;
                proof {
                    let stn = live_state(
                        &url,
                        &name,
                        kind,
                        &labels,
                        &number,
                        &headers,
                        timeout,
                        &input_file,
                    );
                    assert(stn == (ParseState { input_file: Some(argsm[i0 + 1]), ..st0 }));
                    assert(parse_args_from(stn, argsm, i0 + 2) == parse_args(argsm));
                }
            } else if str_eq(value.as_str(), "-n") || str_eq(value.as_str(), "--name") {
                if name.is_some() {
                    return Err(cli_error("argument -n/--name can only be specified once"));
                }
                index = index + 1;
                if index >= args.len() {
                    return Err(cli_error("-n/--name argument requires a value (metric name)"));
                }
                proof {
                    assert(args@[index as int]@ == argsm[i0 + 1]);
                }
                let n = str_trim(args[index].as_str());
                if n.as_str().is_empty() {
                    return Err(cli_error("argument -n/--name requires a non-empty value"));
                }
                name = Some(n);
                index = index + 1;
                proof {
                    let stn = live_state(
                        &url,
                        &name,
                        kind,
                        &labels,
                        &number,
                        &headers,
                        timeout,
                        &input_file,
                    );
                    assert(stn == (ParseState {
                        name: Some(trimmed(argsm[i0 + 1])),
                        ..st0
                    }));
                    assert(parse_args_from(stn, argsm, i0 + 2) == parse_args(argsm));
                }
            } else if str_eq(value.as_str(), "-t") || str_eq(value.as_str(), "--type") {
                if kind.is_some() {
                    return Err(cli_error("argument -t/--type can only be specified once"));
                }
                index = index + 1;
                if index >= args.len() {
                    return Err(cli_error("-t/--type argument requires a value (metric type)"));
                }
                proof {
                    assert(args@[index as int]@ == argsm[i0 + 1]);
                }
                let t = str_trim(args[index].as_str());
                if str_eq(t.as_str(), "counter") {
                    kind = Some(MetricType::Counter);
                } else if str_eq(t.as_str(), "gauge") {
                    kind = Some(MetricType::Gauge);
                } else if str_eq(t.as_str(), "histogram") || str_eq(t.as_str(), "summary") {
                    return Err(
                        cli_error_with("metric type '", t.as_str(), "' is not supported yet"),
                    );
                } else {
                    return Err(cli_error_with("unknown metric type '", t.as_str(), "'"));
                }
                index = index + 1;
                proof {
                    let stn = live_state(
                        &url,
                        &name,
                        kind,
                        &labels,
                        &number,
                        &headers,
                        timeout,
                        &input_file,
                    );
                    assert(stn == (ParseState { kind, ..st0 }));
                    assert(parse_args_from(stn, argsm, i0 + 2) == parse_args(argsm));
                }
            } else if str_eq(value.as_str(), "-v") || str_eq(value.as_str(), "--value") {
                if number.is_some() {
                    return Err(cli_error("argument -v/--value can only be specified once"));
                }
                index = index + 1;
                if index >= args.len() {
                    return Err(cli_error("-v/--value argument requires a value (number)"));
                }
                proof {
                    assert(args@[index as int]@ == argsm[i0 + 1]);
                }
                let t = str_trim(args[index].as_str());
                if !is_float_literal(t.as_str()) {
                    return Err(cli_error("-v/--value argument requires a number"));
                }
                number = Some(t);
                index = index + 1;
                proof {
                    let stn = live_state(
                        &url,
                        &name,
                        kind,
                        &labels,
                        &number,
                        &headers,
                        timeout,
                        &input_file,
                    );
                    assert(stn == (ParseState {
                        number: Some(trimmed(argsm[i0 + 1])),
                        ..st0
                    }));
                    assert(parse_args_from(stn, argsm, i0 + 2) == parse_args(argsm));
                }
            } else if str_eq(value.as_str(), "-l") || str_eq(value.as_str(), "--label") {
                index = index + 1;
                if index >= args.len() {
                    return Err(cli_error("-l/--label argument requires a value (label pair X=Y)"));
                }
                proof {
                    assert(args@[index as int]@ == argsm[i0 + 1]);
                }
                let pair = str_trim(args[index].as_str());
                let (key, val) = match split_eq_once(pair.as_str()) {
                    Some(p) => p,
                    None => {
                        return Err(
                            cli_error("-l/--label argument requires a key-value pair (X=Y)"),
                        );
                    },
                };
                let key = str_trim(key.as_str());
                let val = str_trim(val.as_str());
                if key.as_str().is_empty() {
                    return Err(
                        cli_error_with(
                            "argument -l/--label requires a non-empty key: '",
                            pair.as_str(),
                            "'",
                        ),
                    );
                }
                if val.as_str().is_empty() {
                    return Err(
                        cli_error_with(
                            "argument -l/--label requires a non-empty value: '",
                            pair.as_str(),
                            "'",
                        ),
                    );
                }
                let ghost lm0 = headers_model(labels@);
                let ghost newkey = key@;
                let ghost newval = val@;
                upsert_pair(&mut labels, key, val);
                proof {
                    crate::request::lemma_with_header_entries(lm0, newkey, newval);
                    assert(label_entry_ok((newkey, newval)));
                    assert forall|k: int|
                        0 <= k < labels@.len() implies label_entry_ok(
                        #[trigger] headers_model(labels@)[k],
                    ) by {
                        let entry = headers_model(labels@)[k];
                        if entry == (newkey, newval) {
                        } else {
                            let j = choose|j: int| 0 <= j < lm0.len() && lm0[j] == entry;
                            assert(label_entry_ok(lm0[j]));
                        }
                    }
                }
                index = index + 1;
                proof {
                    let stn = live_state(
                        &url,
                        &name,
                        kind,
                        &labels,
                        &number,
                        &headers,
                        timeout,
                        &input_file,
                    );
                    assert(stn == (ParseState {
                        labels: with_header(st0.labels, newkey, newval),
                        ..st0
                    }));
                    assert(parse_args_from(stn, argsm, i0 + 2) == parse_args(argsm));
                }
            } else {
                return Err(cli_error_with("unknown argument '", value.as_str(), "'"));
            }
        }

        let ghost stf = live_state(
            &url,
            &name,
            kind,
            &labels,
            &number,
            &headers,
            timeout,
            &input_file,
        );
        proof {
            assert(parse_args(argsm) == finish_parse(stf));
        }
        let result = {
            let url = match url {
                Some(u) => u,
                None => {
                    return Err(cli_error("missing required argument -u/--url"));
                },
            };
            let input = match input_file {
                Some(f) => {
                    if name.is_some() {
                        return Err(cli_error("argument -n/--name cannot be used with -f/--file"));
                    }
                    if kind.is_some() {
                        return Err(cli_error("argument -t/--type cannot be used with -f/--file"));
                    }
                    if number.is_some() {
                        return Err(cli_error("argument -v/--value cannot be used with -f/--file"));
                    }
                    if labels.len() > 0 {
                        proof {
                            assert(stf.labels.len() == labels@.len());
                        }
                        return Err(cli_error("argument -l/--label cannot be used with -f/--file"));
                    }
                    proof {
                        assert(stf.labels.len() == labels@.len());
                    }
                    MetricOrFile::File(f)
                },
                None => {
                    let name = match name {
                        Some(n) => n,
                        None => {
                            return Err(cli_error("missing required argument -n/--name"));
                        },
                    };
                    let value = match number {
                        Some(b) => b,
                        None => {
                            return Err(cli_error("missing required argument -v/--value"));
                        },
                    };
                    let kind = match kind {
                        Some(k) => k,
                        None => {
                            if str_ends_with(name.as_str(), "_total") {
                                MetricType::Counter
                            } else {
                                MetricType::Gauge
                            }
                        },
                    };
                    MetricOrFile::Metric { name, kind, labels, value }
                },
            };
            let c = Cmd::Run(Args { url, headers, timeout_secs: timeout, input });
            proof {
                assert(Ok::<CmdModel, Seq<char>>(cmd_view(&c)) == finish_parse(stf));
            }
            Ok(c)
        };
        result
    }

    /// The invocation's usage text.
    pub fn usage() -> (r: String)
        ensures
            r@ == "prom-write "@ + "0.1.0"@ + usage_tail(),
    {
        let mut s = String::from_str("prom-write ");
        s.append(crate_version());
        s.append(usage_tail_str());
        s
    }

    /// The arguments of a run, when this command is one.
    pub fn try_into_run(self) -> (r: Result<Args, Cmd>)
        ensures
            self matches Cmd::Run(a) ==> (r matches Ok(b) && b == a),
            !(self is Run) ==> (r matches Err(c) && c == self),
    {
        match self {
            Cmd::Run(v) => Ok(v),
            other => Err(other),
        }
    }
}

/// The usage text after the version line.
pub open spec fn usage_tail() -> Seq<char> {
    "

Write metrics to Prometheus over the remote-write API

Arguments:
  -h, --help
    Print this help message and exit.

  -u, --url <url>: required!
    Prometheus remote write endpoint URL

  -h, --header KEY=VALUE
    Specify additional custom headers to send in the http request.

  --timeout <timeout:SECONDS>
    Timeout for the HTTP request. If not specified, the default is 60 seconds.

Read metrics from file:
  -f, --file <path>:
    Read metrics from a file encoded in the Prometheus text format.
    If the path is '-', read from stdin.

Manually specify metric:
  -n, --name <name:string>: required!
    Metric name

  -v, --value <value:float>: required!
    Metric value

  -t, --type <type:[counter,gauge]>:
    Metric type. Supported types: counter, gauge.
    DEFAULT: counter if name ends with '_total', gauge otherwise.

  -l, --label <key>=<value>:
    Add a label to the metric. Can be specified multiple times.

Examples:

* Write a gauge:
  > prom-write --url http://localhost:9090/api/v1/write --name requests --value 1

* Write a counter:
  > prom-write --url http://localhost:9090/api/v1/write -n requests_total -v 1

* Specify the type:
  > prom-write --url http://localhost:9090/api/v1/write -n requests -t counter -v 1

* Add labels:
  > prom-write --url http://localhost:9090/api/v1/write -n requests -v 1 --label method=GET -l path=/api/v1/write

* Write metrics from a file:
  > prom-write --url http://localhost:9090/api/v1/write --file metrics.txt -l instance=localhost

* Write metrics from stdin
  > prom-write --url http://localhost:9090/api/v1/write -f -
"@
}

/// The literal behind [`usage_tail`].
fn usage_tail_str() -> (r: &'static str)
    ensures
        r@ == usage_tail(),
{
    "

Write metrics to Prometheus over the remote-write API

Arguments:
  -h, --help
    Print this help message and exit.

  -u, --url <url>: required!
    Prometheus remote write endpoint URL

  -h, --header KEY=VALUE
    Specify additional custom headers to send in the http request.

  --timeout <timeout:SECONDS>
    Timeout for the HTTP request. If not specified, the default is 60 seconds.

Read metrics from file:
  -f, --file <path>:
    Read metrics from a file encoded in the Prometheus text format.
    If the path is '-', read from stdin.

Manually specify metric:
  -n, --name <name:string>: required!
    Metric name

  -v, --value <value:float>: required!
    Metric value

  -t, --type <type:[counter,gauge]>:
    Metric type. Supported types: counter, gauge.
    DEFAULT: counter if name ends with '_total', gauge otherwise.

  -l, --label <key>=<value>:
    Add a label to the metric. Can be specified multiple times.

Examples:

* Write a gauge:
  > prom-write --url http://localhost:9090/api/v1/write --name requests --value 1

* Write a counter:
  > prom-write --url http://localhost:9090/api/v1/write -n requests_total -v 1

* Specify the type:
  > prom-write --url http://localhost:9090/api/v1/write -n requests -t counter -v 1

* Add labels:
  > prom-write --url http://localhost:9090/api/v1/write -n requests -v 1 --label method=GET -l path=/api/v1/write

* Write metrics from a file:
  > prom-write --url http://localhost:9090/api/v1/write --file metrics.txt -l instance=localhost

* Write metrics from stdin
  > prom-write --url http://localhost:9090/api/v1/write -f -
"
}

/// Headers merged in order: each one set into the list in turn.
pub open spec fn with_headers(
    hs: Seq<(Seq<char>, Seq<char>)>,
    extra: Seq<(Seq<char>, Seq<char>)>,
) -> Seq<(Seq<char>, Seq<char>)>
    decreases extra.len(),
{
    if extra.len() == 0 {
        hs
    } else {
        with_headers(with_header(hs, extra[0].0, extra[0].1), extra.drop_first())
    }
}

/// Key/value pairs as labels.
pub open spec fn pairs_to_labels(ps: Seq<(Seq<char>, Seq<char>)>) -> Seq<LabelModel> {
    ps.map_values(|p: (Seq<char>, Seq<char>)| LabelModel { name: p.0, value: p.1 })
}

impl Args {
    /// The write request for a manually specified metric: one series,
    /// one sample, stamped with the given time and carrying the given
    /// double bits (the caller turns the validated value text into
    /// bits); nothing when the input is a file (the caller parses the
    /// file's text instead).
    pub fn build_write_request(&self, value_bits: u64, timestamp_millis: i64) -> (r: Option<
        WriteRequest,
    >)
        ensures
            (r is Some) == (self.input is Metric),
            self.input matches MetricOrFile::Metric { name, labels, .. } ==> r matches Some(req)
                && req@ == (RequestModel {
                timeseries: seq![
                    SeriesModel {
                        labels: pairs_to_labels(headers_model(labels@)).push(
                            LabelModel { name: "__name__"@, value: name@ },
                        ),
                        samples: seq![Sample { value_bits, timestamp: timestamp_millis }],
                    },
                ],
            }),
    {
        match &self.input {
            MetricOrFile::File(_) => None,
            MetricOrFile::Metric { name, kind: _, labels, value: _ } => {
                let ghost pm = headers_model(labels@);
                let mut ls: Vec<Label> = Vec::new();
                let mut i: usize = 0;
                while i < labels.len()
                    invariant
                        i <= labels@.len(),
                        pm == headers_model(labels@),
                        ls@.len() == i,
                        forall|k: int| 0 <= k < i ==> #[trigger] ls@[k]@ == pairs_to_labels(pm)[k],
                    decreases labels@.len() - i,
                {
                    let pair = &labels[i];
                    let lab = Label { name: pair.0.clone(), value: pair.1.clone() };
                    proof {
                        assert(*pair == labels@[i as int]);
                        assert(pm[i as int] == (labels@[i as int].0@, labels@[i as int].1@));
                        assert(pairs_to_labels(pm)[i as int] == (LabelModel {
                            name: pm[i as int].0,
                            value: pm[i as int].1,
                        }));
                        assert(lab@ == pairs_to_labels(pm)[i as int]);
                    }
                    ls.push(lab);
                    i = i + 1;
                }
                ls.push(Label { name: String::from_str("__name__"), value: name.clone() });
                proof {
                    assert(forall|n2: int|
                        0 <= n2 < ls@.len() ==> ls@.map_values(|l: Label| l@)[n2]
                            == #[trigger] ls@[n2]@);
                    assert(ls@.map_values(|l: Label| l@) =~= pairs_to_labels(pm).push(
                        LabelModel { name: "__name__"@, value: name@ },
                    ));
                }
                let mut samples: Vec<Sample> = Vec::new();
                samples.push(Sample { value_bits, timestamp: timestamp_millis });
                let mut timeseries: Vec<TimeSeries> = Vec::new();
                timeseries.push(TimeSeries { labels: ls, samples });
                let req = WriteRequest { timeseries };
                proof {
                    assert(forall|n2: int|
                        0 <= n2 < timeseries@.len() ==> timeseries@.map_values(
                            |t: TimeSeries| t@,
                        )[n2] == #[trigger] timeseries@[n2]@);
                    assert(req@.timeseries =~= seq![
                        SeriesModel {
                            labels: pairs_to_labels(pm).push(
                                LabelModel { name: "__name__"@, value: name@ },
                            ),
                            samples: seq![
                                Sample { value_bits, timestamp: timestamp_millis },
                            ],
                        },
                    ]);
                }
                Some(req)
            },
        }
    }

    /// Build the fully prepared request descriptor: the protocol's
    /// fixed headers, with the caller's custom headers merged in (a
    /// custom header replaces a fixed one of the same name).
    #[verifier::loop_isolation(false)]
    pub fn build_http_req(&self, req: WriteRequest, user_agent: &str) -> (r: Result<
        HttpRequest,
        EncodeError,
    >)
        ensures
            (r is Ok) == crate::compress::snappy_input_fits(
                crate::encode::encoded_request(crate::canon::within_canon(req@)).len(),
            ),
            r matches Ok(h) ==> h.method@ == "POST"@ && h.url@ == self.url@ && headers_model(
                h.headers@,
            ) == with_headers(fixed_headers(user_agent@), headers_model(self.headers@))
                && h.body@ == crate::compress::snappy_of(
                crate::encode::encoded_request(crate::canon::within_canon(req@)),
            ),
    {
        let mut h = match req.build_http_request(self.url.as_str(), user_agent) {
            Ok(h) => h,
            Err(e) => {
                return Err(e);
            },
        };
        let ghost extra = headers_model(self.headers@);
        let mut i: usize = 0;
        proof {
            assert(extra.skip(0) =~= extra);
        }
        while i < self.headers.len()
            invariant
                i <= self.headers@.len(),
                h.method@ == "POST"@,
                h.url@ == self.url@,
                h.body@ == crate::compress::snappy_of(
                    crate::encode::encoded_request(crate::canon::within_canon(req@)),
                ),
                with_headers(headers_model(h.headers@), extra.skip(i as int)) == with_headers(
                    fixed_headers(user_agent@),
                    extra,
                ),
            decreases self.headers@.len() - i,
        {
            proof {
                assert(extra[i as int] == (self.headers@[i as int].0@,
                self.headers@[i as int].1@));
                assert(extra.skip(i as int)[0] == extra[i as int]);
                assert(extra.skip(i as int).drop_first() =~= extra.skip(i as int + 1));
            }
            h.set_header(self.headers[i].0.as_str(), self.headers[i].1.as_str());
            i = i + 1;
        }
        proof {
            assert(extra.skip(extra.len() as int).len() == 0);
        }
        Ok(h)
    }
}

/// What one invocation asks of its surroundings: print a text, or send
/// a write request built from the given arguments.
#[derive(Debug)]
pub enum Plan {
    Stdout(String),
    Send(Args),
}

/// Decide what a command line asks for. Printing, file reading, clock
/// reading and the network call stay with the caller. The decision is
/// exactly what [`parse_args`] makes of the argument views: its error
/// passed through unchanged, help and version as their texts, and a
/// run as the parsed arguments.
pub fn run(args: Vec<String>) -> (r: Result<Plan, CliError>)
    ensures
        (r is Ok) == (parse_args(args@.map_values(|x: String| x@)) is Ok),
        r matches Err(e) ==> Err::<CmdModel, Seq<char>>(e.message@) == parse_args(
            args@.map_values(|x: String| x@),
        ),
        r matches Ok(p) ==> (p matches Plan::Send(a) ==> Ok::<CmdModel, Seq<char>>(
            CmdModel::Run(args_view(&a)),
        ) == parse_args(args@.map_values(|x: String| x@))),
        r matches Ok(p) ==> (p matches Plan::Stdout(s) ==> (parse_args(
            args@.map_values(|x: String| x@),
        ) == Ok::<CmdModel, Seq<char>>(CmdModel::Help) && s@ == "prom-write "@ + "0.1.0"@
            + usage_tail()) || (parse_args(args@.map_values(|x: String| x@)) == Ok::<
            CmdModel,
            Seq<char>,
        >(CmdModel::Version) && s@ == "prom-write "@ + "0.1.0"@)),
        r matches Ok(p) ==> (p matches Plan::Send(a) ==> (exists|s: Seq<char>|
            url_normalized(s) == Some(a.url@))),
        r matches Ok(p) ==> (p matches Plan::Send(a) ==> forall|k: int|
            0 <= k < a.headers@.len() ==> header_entry_ok(
                #[trigger] headers_model(a.headers@)[k],
            )),
{
    let cmd = match Cmd::parse(&args) {
        Ok(c) => c,
        Err(e) => {
            return Err(e);
        },
    };
    match cmd {
        Cmd::Help => Ok(Plan::Stdout(Cmd::usage())),
        Cmd::Version => {
            let mut s = String::from_str("prom-write ");
            s.append(crate_version());
            Ok(Plan::Stdout(s))
        },
        Cmd::Run(a) => Ok(Plan::Send(a)),
    }
}

/// Equality of two key/value pair lists, as models.
fn pairs_eq(a: &Vec<(String, String)>, b: &Vec<(String, String)>) -> (r: bool)
    ensures
        r == (headers_model(a@) == headers_model(b@)),
{
    let ghost am = headers_model(a@);
    let ghost bm = headers_model(b@);
    if a.len() != b.len() {
        proof {
            assert(am.len() == a@.len());
            assert(bm.len() == b@.len());
        }
        return false;
    }
    let mut i: usize = 0;
    while i < a.len()
        invariant
            i <= a@.len(),
            a@.len() == b@.len(),
            am == headers_model(a@),
            bm == headers_model(b@),
            forall|k: int| 0 <= k < i ==> am[k] == bm[k],
        decreases a@.len() - i,
    {
        assert(am[i as int] == (a@[i as int].0@, a@[i as int].1@));
        assert(bm[i as int] == (b@[i as int].0@, b@[i as int].1@));
        if !(a[i].0 == b[i].0 && a[i].1 == b[i].1) {
            proof {
                if am == bm {
                    assert(am[i as int] == bm[i as int]);
                }
            }
            return false;
        }
        i = i + 1;
    }
    proof {
        assert(am =~= bm);
    }
    true
}

/// Model equality of inputs.
pub open spec fn input_eq_spec(a: &MetricOrFile, b: &MetricOrFile) -> bool {
    match (a, b) {
        (
            MetricOrFile::Metric { name: n1, kind: k1, labels: l1, value: v1 },
            MetricOrFile::Metric { name: n2, kind: k2, labels: l2, value: v2 },
        ) => n1@ == n2@ && k1 == k2 && headers_model(l1@) == headers_model(l2@) && v1@ == v2@,
        (MetricOrFile::File(f1), MetricOrFile::File(f2)) => f1@ == f2@,
        _ => false,
    }
}

/// Model equality of argument sets.
pub open spec fn args_eq_spec(a: &Args, b: &Args) -> bool {
    a.url@ == b.url@ && a.timeout_secs == b.timeout_secs && input_eq_spec(&a.input, &b.input)
        && headers_model(a.headers@) == headers_model(b.headers@)
}

/// Model equality of commands.
pub open spec fn cmd_eq_spec(a: &Cmd, b: &Cmd) -> bool {
    match (a, b) {
        (Cmd::Help, Cmd::Help) => true,
        (Cmd::Version, Cmd::Version) => true,
        (Cmd::Run(x), Cmd::Run(y)) => args_eq_spec(x, y),
        _ => false,
    }
}

impl PartialEq for MetricOrFile {
    fn eq(&self, other: &Self) -> (r: bool) {
        match (self, other) {
            (
                MetricOrFile::Metric { name: n1, kind: k1, labels: l1, value: v1 },
                MetricOrFile::Metric { name: n2, kind: k2, labels: l2, value: v2 },
            ) => *n1 == *n2 && *k1 == *k2 && pairs_eq(l1, l2) && *v1 == *v2,
            (MetricOrFile::File(f1), MetricOrFile::File(f2)) => *f1 == *f2,
            _ => false,
        }
    }
}

impl vstd::std_specs::cmp::PartialEqSpecImpl for MetricOrFile {
    open spec fn obeys_eq_spec() -> bool {
        true
    }

    open spec fn eq_spec(&self, other: &Self) -> bool {
        input_eq_spec(self, other)
    }
}

impl PartialEq for Args {
    fn eq(&self, other: &Self) -> (r: bool) {
        let timeout_same = match (self.timeout_secs, other.timeout_secs) {
            (None, None) => true,
            (Some(x), Some(y)) => x == y,
            _ => false,
        };
        self.url == other.url && timeout_same && self.input == other.input && pairs_eq(
            &self.headers,
            &other.headers,
        )
    }
}

impl vstd::std_specs::cmp::PartialEqSpecImpl for Args {
    open spec fn obeys_eq_spec() -> bool {
        true
    }

    open spec fn eq_spec(&self, other: &Self) -> bool {
        args_eq_spec(self, other)
    }
}

impl PartialEq for Cmd {
    fn eq(&self, other: &Self) -> (r: bool) {
        match (self, other) {
            (Cmd::Help, Cmd::Help) => true,
            (Cmd::Version, Cmd::Version) => true,
            (Cmd::Run(x), Cmd::Run(y)) => *x == *y,
            _ => false,
        }
    }
}

impl vstd::std_specs::cmp::PartialEqSpecImpl for Cmd {
    open spec fn obeys_eq_spec() -> bool {
        true
    }

    open spec fn eq_spec(&self, other: &Self) -> bool {
        cmd_eq_spec(self, other)
    }
}

} // verus!
