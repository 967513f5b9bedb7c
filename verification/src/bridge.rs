//! The typed request bridge, up to the network edge.
//!
//! A typed exchange is: encode the request value to JSON, send it as a POST
//! with JSON headers, decode the body that comes back. Everything except the
//! network wait is decided here: the outbound call is built as a plain value
//! whose method, headers, url and body are pinned by contract, and the
//! response body is decoded by `json::decode_response`. The shell around the
//! library only carries the built request to a fetch primitive and hands the
//! body bytes back.

use vstd::prelude::*;
use crate::json::EchoRequest;
use crate::json::EchoResponse;
use crate::json::decode_response;
use crate::json::encode_request;
use crate::json::spec_encode_request;
use crate::json::spec_encode_response;
use crate::json::status_ok;

verus! {

/// The capability a value needs to travel out through the bridge: a
/// canonical JSON text of its own.
pub trait ToJson: Sized {
    /// The canonical JSON text of this value.
    spec fn encoding(&self) -> Seq<u8>;

    /// Encodes the value to exactly its canonical text.
    fn to_json(&self) -> (s: Vec<u8>)
        ensures
            s@ == self.encoding(),
    ;
}

/// The capability a value needs to come back through the bridge: a decode
/// that accepts exactly the canonical texts, so a caller either gets the
/// value the far side encoded or a refusal — never a reshaped value.
pub trait FromJson: Sized {
    /// Whether `s` is the canonical JSON text of `v`.
    spec fn is_encoding_of(s: Seq<u8>, v: Self) -> bool;

    /// Decodes a body, accepting exactly the canonical texts.
    fn from_json(s: &[u8]) -> (r: Option<Self>)
        ensures
            match r {
                Some(v) => Self::is_encoding_of(s@, v),
                None => forall|v: Self| !Self::is_encoding_of(s@, v),
            },
    ;
}

impl ToJson for EchoRequest {
    open spec fn encoding(&self) -> Seq<u8> {
        spec_encode_request(self.id as nat)
    }

    fn to_json(&self) -> (s: Vec<u8>) {
        encode_request(self)
    }
}

impl FromJson for EchoResponse {
    open spec fn is_encoding_of(s: Seq<u8>, v: Self) -> bool {
        v.wf() && s == spec_encode_response(v.id as nat, v.status@)
    }

    fn from_json(s: &[u8]) -> (r: Option<Self>) {
        let r = decode_response(s);
        proof {
            if r is None {
                assert forall|v: EchoResponse| !Self::is_encoding_of(s@, v) by {
                    if Self::is_encoding_of(s@, v) {
                        assert(v.id as nat <= u64::MAX && status_ok(v.status@));
                    }
                }
            }
        }
        r
    }
}

/// The one method the bridge uses: every call carries a JSON body.
#[derive(Debug, PartialEq, Eq, Structural, Clone, Copy)]
pub enum HttpMethod {
    Post,
}

/// An outbound call, fully determined before any network work.
pub struct JsonRequest {
    pub method: HttpMethod,
    pub accept: String,
    pub content_type: String,
    pub url: String,
    pub body: Vec<u8>,
}

impl JsonRequest {
    /// Every call the bridge builds: a POST announcing JSON both ways.
    pub open spec fn wf(self) -> bool {
        &&& self.method == HttpMethod::Post
        &&& self.accept@ == "application/json"@
        &&& self.content_type@ == "application/json"@
    }
}

/// Builds the outbound call for a pre-encoded JSON body: POST, both headers
/// `application/json`, the url and body carried unchanged.
pub fn build_json_request(url: &str, body: Vec<u8>) -> (r: JsonRequest)
    ensures
        r.wf(),
        r.url@ == url@,
        r.body@ == body@,
{
    JsonRequest {
        method: HttpMethod::Post,
        accept: "application/json".to_owned(),
        content_type: "application/json".to_owned(),
        url: url.to_owned(),
        body,
    }
}

/// The outbound half of a typed exchange: the request value, encoded to its
/// canonical JSON text and wrapped as the call to send. Two calls with the
/// same url and value build the same call.
pub fn prepare_typed_request<Req: ToJson>(url: &str, req: &Req) -> (r: JsonRequest)
    ensures
        r.wf(),
        r.url@ == url@,
        r.body@ == req.encoding(),
{
    let body = req.to_json();
    build_json_request(url, body)
}

} // verus!
