//! Request dispatch: the snapshot a dispatch is built from, the single
//! outbound call's ingredients, and the classification of what came back.
//! The network call itself is the caller's; everything on either side of
//! it is verified.
use vstd::prelude::*;

verus! {

use crate::method::HttpMethod;
use crate::query::KeyValuePair;
use crate::query::KeyValuePairV;
use crate::query::effective;
use crate::query::rows_view;
use crate::query::spec_build_url;
use crate::record::pairs_view;

/// A composed request: what the editor holds.
#[derive(Clone, Debug, PartialEq, Eq)]
pub struct Request {
    pub name: String,
    pub method: HttpMethod,
    pub url: String,
    pub params: Vec<KeyValuePair>,
    pub headers: Vec<KeyValuePair>,
    pub body: String,
}

/// The mathematical shape of a composed request.
#[verifier::ext_equal]
pub struct RequestV {
    pub name: Seq<char>,
    pub method: HttpMethod,
    pub url: Seq<char>,
    pub params: Seq<KeyValuePairV>,
    pub headers: Seq<KeyValuePairV>,
    pub body: Seq<char>,
}

impl View for Request {
    type V = RequestV;

    open spec fn view(&self) -> RequestV {
        RequestV {
            name: self.name@,
            method: self.method,
            url: self.url@,
            params: rows_view(self.params@),
            headers: rows_view(self.headers@),
            body: self.body@,
        }
    }
}

/// The verbs an outbound call carries a body for.
pub open spec fn method_allows_body(m: HttpMethod) -> bool {
    m == HttpMethod::Post || m == HttpMethod::Put || m == HttpMethod::Patch
}

/// The body the call carries: the composed body only for a verb that
/// carries one and only when nonempty; otherwise nothing.
pub open spec fn spec_body_to_send(m: HttpMethod, body: Seq<char>) -> Option<Seq<char>> {
    if method_allows_body(m) && body.len() > 0 {
        Some(body)
    } else {
        None
    }
}

/// Everything one outbound call is made of. The caller performs exactly
/// this call: `method` on `url`, `headers` attached in order (duplicates
/// repeated, not collapsed), and `body` attached when present.
#[derive(Clone, Debug, PartialEq, Eq)]
pub struct DispatchPlan {
    pub method: HttpMethod,
    pub url: String,
    pub headers: Vec<(String, String)>,
    pub body: Option<String>,
}

/// The call a request snapshot turns into: the URL with the effective
/// parameters, the effective headers in order, and the body when the verb
/// carries one.
pub open spec fn spec_dispatch_plan(r: RequestV) -> (HttpMethod, Seq<char>, Seq<
    (Seq<char>, Seq<char>),
>, Option<Seq<char>>) {
    (r.method, spec_build_url(r.url, r.params), effective(r.headers), spec_body_to_send(
        r.method,
        r.body,
    ))
}

/// Builds the one outbound call from a request snapshot. The plan is built
/// whatever the snapshot holds; a caller that, like the composer, skips the
/// call silently when the effective URL is empty tests `DispatchPlan::has_url`
/// before performing it.
pub fn prepare_dispatch(req: &Request) -> (p: DispatchPlan)
    ensures
        p.method == req@.method,
        p.url@ == spec_dispatch_plan(req@).1,
        pairs_view(p.headers@) == spec_dispatch_plan(req@).2,
        (p.body is Some) == (spec_dispatch_plan(req@).3 is Some),
        p.body matches Some(b) ==> spec_dispatch_plan(req@).3 == Some(b@),
{
    let url = crate::query::build_url_with_params(req.url.as_str(), &req.params);
    let headers = crate::query::effective_pairs(&req.headers);
    let send_body = match req.method {
        HttpMethod::Post => true,
        HttpMethod::Put => true,
        HttpMethod::Patch => true,
        _ => false,
    };
    let body: Option<String> = if send_body && !req.body.as_str().is_empty() {
        Some(req.body.clone())
    } else {
        None
    };
    DispatchPlan { method: req.method, url, headers, body }
}

impl DispatchPlan {
    /// Whether the plan names a URL at all: an empty effective URL is the
    /// composer's cue to make no call.
    pub fn has_url(&self) -> (r: bool)
        ensures
            r == (self.url@.len() != 0),
    {
        !self.url.as_str().is_empty()
    }
}

/// A verb that carries no body never sends one, however much body text the
/// composer holds.
pub proof fn lemma_no_body_for_other_verbs(r: RequestV)
    requires
        !(r.method == HttpMethod::Post || r.method == HttpMethod::Put || r.method
            == HttpMethod::Patch),
    ensures
        spec_dispatch_plan(r).3 is None,
{
}

// ===== classification =====

/// Bodies longer than this many bytes are kept raw and flagged, never
/// re-rendered.
pub const MAX_RESPONSE_DISPLAY_BYTES: usize = 100000;

/// The label shown for a status code: `OK` for the 200s, `Client Error`
/// for the 400s, `Server Error` for the 500s, a bare `Response` otherwise.
pub open spec fn spec_status_label(code: u16) -> Seq<char> {
    if 200 <= code && code < 300 {
        seq!['O', 'K']
    } else if 400 <= code && code < 500 {
        seq!['C', 'l', 'i', 'e', 'n', 't', ' ', 'E', 'r', 'r', 'o', 'r']
    } else if 500 <= code && code < 600 {
        seq!['S', 'e', 'r', 'v', 'e', 'r', ' ', 'E', 'r', 'r', 'o', 'r']
    } else {
        seq!['R', 'e', 's', 'p', 'o', 'n', 's', 'e']
    }
}

pub fn status_label(code: u16) -> (r: String)
    ensures
        r@ == spec_status_label(code),
{
    proof {
        reveal_strlit("OK");
        reveal_strlit("Client Error");
        reveal_strlit("Server Error");
        reveal_strlit("Response");
    }
    if 200 <= code && code < 300 {
        String::from_str("OK")
    } else if 400 <= code && code < 500 {
        String::from_str("Client Error")
    } else if 500 <= code && code < 600 {
        String::from_str("Server Error")
    } else {
        String::from_str("Response")
    }
}

/// The result of one dispatch: status code zero stands for a transport
/// failure.
#[derive(Clone, Debug, PartialEq, Eq)]
pub struct ResponseRecord {
    pub status_code: u16,
    pub status_label: String,
    pub elapsed_ms: u128,
    pub body: String,
    pub body_oversized: bool,
}

/// The mathematical shape of one dispatch result.
#[verifier::ext_equal]
pub struct ResponseRecordV {
    pub status_code: u16,
    pub status_label: Seq<char>,
    pub elapsed_ms: u128,
    pub body: Seq<char>,
    pub body_oversized: bool,
}

impl View for ResponseRecord {
    type V = ResponseRecordV;

    open spec fn view(&self) -> ResponseRecordV {
        ResponseRecordV {
            status_code: self.status_code,
            status_label: self.status_label@,
            elapsed_ms: self.elapsed_ms,
            body: self.body@,
            body_oversized: self.body_oversized,
        }
    }
}

/// The UTF-8 length of a text, in bytes.
pub open spec fn byte_len(s: Seq<char>) -> nat {
    vstd::utf8::encode_utf8(s).len()
}

/// What a completed call's body is shown as: over the display limit it is
/// kept raw and flagged; otherwise, when it parses as JSON, it is replaced
/// by the codec's canonical form; otherwise it is kept raw.
pub open spec fn spec_classify(status: u16, body: Seq<char>, elapsed_ms: u128) -> ResponseRecordV {
    let oversized = byte_len(body) > MAX_RESPONSE_DISPLAY_BYTES;
    ResponseRecordV {
        status_code: status,
        status_label: spec_status_label(status),
        elapsed_ms: elapsed_ms,
        body: if oversized {
            body
        } else {
            match crate::json::parse_text(body) {
                Some(m) => crate::json::print_json(m, 0),
                None => body,
            }
        },
        body_oversized: oversized,
    }
}

/// Classifies a completed call.
pub fn classify_response(status: u16, body: String, elapsed_ms: u128) -> (r: ResponseRecord)
    ensures
        r@ == spec_classify(status, body@, elapsed_ms),
{
    let ghost bv = body@;
    let label = status_label(status);
    let n = body.as_str().as_bytes().len();
    proof {
        broadcast use vstd::slice::axiom_spec_len;

        assert(n == byte_len(bv));
    }
    if n > MAX_RESPONSE_DISPLAY_BYTES {
        let rec = ResponseRecord {
            status_code: status,
            status_label: label,
            elapsed_ms,
            body,
            body_oversized: true,
        };
        proof {
            assert(rec@ =~= spec_classify(status, bv, elapsed_ms));
        }
        rec
    } else {
        let shown = match crate::json::text_to_json(body.as_str()) {
            Some(doc) => crate::json::json_to_text(&doc),
            None => body,
        };
        let rec = ResponseRecord {
            status_code: status,
            status_label: label,
            elapsed_ms,
            body: shown,
            body_oversized: false,
        };
        proof {
            assert(rec@ =~= spec_classify(status, bv, elapsed_ms));
        }
        rec
    }
}

/// The record a failed call produces: status code zero, the `Error` label,
/// and the failure's message after `Error: ` as the body.
pub open spec fn spec_transport_failure(message: Seq<char>, elapsed_ms: u128) -> ResponseRecordV {
    ResponseRecordV {
        status_code: 0,
        status_label: seq!['E', 'r', 'r', 'o', 'r'],
        elapsed_ms: elapsed_ms,
        body: seq!['E', 'r', 'r', 'o', 'r', ':', ' '] + message,
        body_oversized: false,
    }
}

/// The record for a call that could not complete; never a panic, whatever
/// the transport reported.
pub fn transport_failure_record(message: &str, elapsed_ms: u128) -> (r: ResponseRecord)
    ensures
        r@ == spec_transport_failure(message@, elapsed_ms),
{
    proof {
        reveal_strlit("Error");
        reveal_strlit("Error: ");
    }
    let body = String::from_str("Error: ").concat(message);
    ResponseRecord {
        status_code: 0,
        status_label: String::from_str("Error"),
        elapsed_ms,
        body,
        body_oversized: false,
    }
}

} // verus!
