//! The decisions of one proxied transaction. The caller performs each
//! returned action (reads, writes, connects) and reports what happened; the
//! transaction decides what comes next: read more of the request, answer
//! with an error, serve from the cache, forward to the origin, relay the
//! response, and store it when it may be cached.
use bytes::Bytes;
use vstd::prelude::*;

use crate::cache::{cache_wf, lemma_put_then_get, spec_get, spec_put, CacheView, ProxyCache};
use crate::http::{
    cached_response_head, find_blank_line, find_blank_line_exec,
    parse_request, parse_response_for_cache, replay_head, spec_cache_entry, spec_parse_request,
};
use crate::key::{append_slice, create_cache_key, spec_cache_key};
use crate::limits::{MAX_CONNECTIONS, MAX_ENTRY_SIZE, MAX_REQUEST_SIZE, MAX_RESPONSE_SIZE};
use crate::policy::{extract_host, header_views, spec_extract_host, spec_ttl};
use crate::response::{bytes_view, entry_size};
use crate::text::same_text;

verus! {

/// A status-line-only answer sent to the client before closing.
#[derive(Clone, Copy, Debug, PartialEq, Eq)]
pub enum ErrorReply {
    /// The request did not parse or named no host (400).
    BadRequest,
    /// The request grew past `MAX_REQUEST_SIZE` (413).
    RequestTooLarge,
    /// The origin could not be reached or written to (502).
    BadGateway,
    /// The proxy is at `MAX_CONNECTIONS` (503).
    ServiceUnavailable,
}

pub open spec fn reply_text(e: ErrorReply) -> Seq<char> {
    match e {
        ErrorReply::BadRequest => "HTTP/1.1 400 Bad Request\r\n\r\n"@,
        ErrorReply::RequestTooLarge => "HTTP/1.1 413 Request Entity Too Large\r\n\r\n"@,
        ErrorReply::BadGateway => "HTTP/1.1 502 Bad Gateway\r\n\r\n"@,
        ErrorReply::ServiceUnavailable => "HTTP/1.1 503 Service Unavailable\r\n\r\n"@,
    }
}

/// The bytes of an error answer.
pub fn error_response(e: ErrorReply) -> (r: &'static str)
    ensures
        r@ == reply_text(e),
{
    match e {
        ErrorReply::BadRequest => "HTTP/1.1 400 Bad Request\r\n\r\n",
        ErrorReply::RequestTooLarge => "HTTP/1.1 413 Request Entity Too Large\r\n\r\n",
        ErrorReply::BadGateway => "HTTP/1.1 502 Bad Gateway\r\n\r\n",
        ErrorReply::ServiceUnavailable => "HTTP/1.1 503 Service Unavailable\r\n\r\n",
    }
}

/// Whether a new client connection is taken on while `active` are served.
pub fn admit_connection(active: usize) -> (r: bool)
    ensures
        r == (active < MAX_CONNECTIONS),
{
    active < MAX_CONNECTIONS
}

/// A parsed request and the origin it names.
pub struct ProxyRequest {
    pub method: String,
    pub host: String,
    pub port: u16,
    pub path: String,
    pub headers: Vec<String>,
}

/// Method, host, port and path of the request in `buffer`, when it parses
/// and names a host.
pub open spec fn spec_validate(buffer: Seq<u8>) -> Option<(Seq<char>, Seq<char>, u16, Seq<char>)> {
    match spec_parse_request(buffer) {
        Some((m, p, hs)) => match spec_extract_host(hs) {
            Some((h, port)) => Some((m, h, port, p)),
            None => None,
        },
        None => None,
    }
}

/// Parses the request in `buffer` and finds the origin it names; a request
/// that does not parse, or has no `Host` header, is a bad request.
pub fn validate_request(buffer: &[u8]) -> (r: Result<ProxyRequest, ErrorReply>)
    ensures
        match spec_validate(buffer@) {
            Some((m, h, port, p)) => r matches Ok(q) && q.method@ == m && q.host@ == h && q.port
                == port && q.path@ == p,
            None => r matches Err(ErrorReply::BadRequest),
        },
        r matches Ok(q) ==> spec_parse_request(buffer@) matches Some(t) && header_views(q.headers@)
            == t.2,
{
    let (method, path, headers) = match parse_request(buffer) {
        Some(parts) => parts,
        None => return Err(ErrorReply::BadRequest),
    };
    let (host, port) = match extract_host(headers.as_slice()) {
        Some(origin) => origin,
        None => return Err(ErrorReply::BadRequest),
    };
    Ok(ProxyRequest { method, host, port, path, headers })
}

/// Where a transaction stands.
#[derive(Clone, Copy, Debug, PartialEq, Eq)]
pub enum Stage {
    /// Reading the request from the client.
    ReadingRequest,
    /// Waiting for a connection to the origin.
    Connecting,
    /// The request was sent; reading the origin's response.
    Receiving,
    /// The captured response is being written to the client.
    Relaying,
    /// Nothing is left to decide.
    Done,
}

/// What the caller does next.
pub enum Action {
    /// Read more of the request and report it with `on_client_data`.
    ReadClient,
    /// Write this error answer to the client, then close.
    Reply(ErrorReply),
    /// Write the head, then the body, to the client, then close.
    ServeCached(Vec<u8>, Bytes),
    /// Get a connection to this origin and report with `on_connect_result`.
    Connect(String, u16),
    /// Write these bytes (the request, verbatim) to the origin, then read
    /// its response and report it with `on_upstream_data`.
    SendUpstream(Vec<u8>),
    /// Read more of the origin's response and report it with `on_upstream_data`.
    ReadUpstream,
    /// Write these bytes to the client, copy the rest of the origin's
    /// response straight to it, then close both; the origin connection is
    /// not pooled and nothing is cached.
    StreamRest(Vec<u8>),
    /// Write this whole response to the client; when that succeeds, return
    /// the origin connection to the pool and call `on_relayed`.
    Relay(Vec<u8>),
}

/// A transaction as plain values.
pub struct TransactionView {
    pub stage: Stage,
    pub request: Seq<u8>,
    pub response: Seq<u8>,
    /// Method, host, port and path, once the request was read and accepted.
    pub target: Option<(Seq<char>, Seq<char>, u16, Seq<char>)>,
}

/// One client transaction.
pub struct Transaction {
    stage: Stage,
    request: Vec<u8>,
    response: Vec<u8>,
    target: Option<ProxyRequest>,
}

impl View for Transaction {
    type V = TransactionView;

    closed spec fn view(&self) -> TransactionView {
        TransactionView {
            stage: self.stage,
            request: self.request@,
            response: self.response@,
            target: match self.target {
                Some(q) => Some((q.method@, q.host@, q.port, q.path@)),
                None => None,
            },
        }
    }
}

/// The request bytes read so far once `chunk` is added (an empty chunk is
/// the end of the client's stream).
pub open spec fn grown(old: Seq<u8>, chunk: Seq<u8>) -> Seq<u8> {
    old + chunk
}

/// The request is complete: the client closed its side, or a blank line
/// ends the head.
pub open spec fn request_complete(buffer: Seq<u8>, chunk: Seq<u8>) -> bool {
    chunk.len() == 0 || find_blank_line(buffer, 0) is Some
}

/// The invariant of a transaction: the captured response stays within
/// `MAX_RESPONSE_SIZE`, and once the request is accepted its target is known.
pub open spec fn transaction_wf(t: TransactionView) -> bool {
    &&& t.response.len() <= MAX_RESPONSE_SIZE
    &&& (t.stage == Stage::Connecting || t.stage == Stage::Receiving || t.stage == Stage::Relaying)
        ==> t.target is Some
}

impl Transaction {
    pub open spec fn wf(&self) -> bool {
        transaction_wf(self@)
    }

    /// A transaction that starts by reading the request.
    pub fn new() -> (r: Transaction)
        ensures
            r.wf(),
            r@.stage == Stage::ReadingRequest,
            r@.request.len() == 0,
            r@.response.len() == 0,
            r@.target is None,
    {
        Transaction { stage: Stage::ReadingRequest, request: Vec::new(), response: Vec::new(), target: None }
    }

    /// Where the transaction stands.
    pub fn stage(&self) -> (r: Stage)
        ensures
            r == self@.stage,
    {
        self.stage
    }

    /// Takes `chunk`, the next bytes from the client (empty at the end of its
    /// stream). A request past `MAX_REQUEST_SIZE` is refused; an incomplete
    /// one is read further. A complete one is parsed: a bad request is
    /// answered with 400; a `GET` that the cache holds live at `now` is served
    /// from it; anything else goes to the origin that the request names.
    pub fn on_client_data(&mut self, chunk: &[u8], cache: &mut ProxyCache, now: u64) -> (r: Action)
        requires
            old(self).wf(),
            old(self)@.stage == Stage::ReadingRequest,
            old(cache).wf(),
        ensures
            final(self).wf(),
            final(cache).wf(),
            ({
                let buf = grown(old(self)@.request, chunk@);
                if chunk@.len() > 0 && buf.len() > MAX_REQUEST_SIZE {
                    &&& r matches Action::Reply(ErrorReply::RequestTooLarge)
                    &&& final(self)@.stage == Stage::Done
                    &&& final(cache)@ == old(cache)@
                } else if !request_complete(buf, chunk@) {
                    &&& r matches Action::ReadClient
                    &&& final(self)@.stage == Stage::ReadingRequest
                    &&& final(self)@.request == buf
                    &&& final(cache)@ == old(cache)@
                } else {
                    match spec_validate(buf) {
                        None => {
                            &&& r matches Action::Reply(ErrorReply::BadRequest)
                            &&& final(self)@.stage == Stage::Done
                            &&& final(cache)@ == old(cache)@
                        },
                        Some((m, h, port, p)) => {
                            let key = spec_cache_key(h, port, p);
                            let hit = if m == "GET"@ {
                                spec_get(old(cache)@, key, now).1
                            } else {
                                None
                            };
                            &&& m == "GET"@ ==> final(cache)@ == spec_get(old(cache)@, key, now).0
                            &&& m != "GET"@ ==> final(cache)@ == old(cache)@
                            &&& match hit {
                                Some(e) => {
                                    &&& r matches Action::ServeCached(head, body)
                                    &&& head@ == replay_head(e)
                                    &&& bytes_view(body) == e.body
                                    &&& final(self)@.stage == Stage::Done
                                },
                                None => {
                                    &&& r matches Action::Connect(rh, rp)
                                    &&& rh@ == h
                                    &&& rp == port
                                    &&& final(self)@.stage == Stage::Connecting
                                    &&& final(self)@.request == buf
                                    &&& final(self)@.target == Some((m, h, port, p))
                                },
                            }
                        },
                    }
                }
            }),
    {
        let ghost buf = grown(self.request@, chunk@);
        if chunk.len() > 0 {
            if chunk.len() > MAX_REQUEST_SIZE || self.request.len() > MAX_REQUEST_SIZE - chunk.len() {
                self.stage = Stage::Done;
                return Action::Reply(ErrorReply::RequestTooLarge);
            }
            append_slice(&mut self.request, chunk);
            if find_blank_line_exec(self.request.as_slice()).is_none() {
                return Action::ReadClient;
            }
        }
        assert(self.request@ =~= buf);
        let q = match validate_request(self.request.as_slice()) {
            Ok(q) => q,
            Err(e) => {
                self.stage = Stage::Done;
                return Action::Reply(e);
            },
        };
        let key = create_cache_key(q.host.as_str(), q.port, q.path.as_str());
        if same_text(q.method.as_str(), "GET") {
            if let Some(hit) = cache.get_at(key, now) {
                let head = cached_response_head(&hit);
                self.stage = Stage::Done;
                return Action::ServeCached(head, hit.body);
            }
        }
        let host = q.host.clone();
        let port = q.port;
        self.target = Some(q);
        self.stage = Stage::Connecting;
        Action::Connect(host, port)
    }

    /// Takes the outcome of getting a connection to the origin: without one
    /// the client gets 502; with one the request is sent on verbatim.
    pub fn on_connect_result(&mut self, connected: bool) -> (r: Action)
        requires
            old(self).wf(),
            old(self)@.stage == Stage::Connecting,
        ensures
            final(self).wf(),
            !connected ==> (r matches Action::Reply(ErrorReply::BadGateway) && final(self)@.stage
                == Stage::Done),
            connected ==> (r matches Action::SendUpstream(bytes) && bytes@ == old(self)@.request
                && final(self)@.stage == Stage::Receiving && final(self)@.response.len() == 0
                && final(self)@.target == old(self)@.target && final(self)@.request
                == old(self)@.request),
    {
        if !connected {
            self.stage = Stage::Done;
            return Action::Reply(ErrorReply::BadGateway);
        }
        self.stage = Stage::Receiving;
        self.response = Vec::new();
        let mut bytes: Vec<u8> = Vec::new();
        append_slice(&mut bytes, self.request.as_slice());
        Action::SendUpstream(bytes)
    }

    /// The request could not be written to the origin: the client gets 502.
    pub fn on_forward_failed(&mut self) -> (r: Action)
        requires
            old(self).wf(),
            old(self)@.stage == Stage::Receiving,
        ensures
            final(self).wf(),
            r matches Action::Reply(ErrorReply::BadGateway),
            final(self)@.stage == Stage::Done,
    {
        self.stage = Stage::Done;
        Action::Reply(ErrorReply::BadGateway)
    }

    /// Takes `chunk`, the next bytes from the origin (empty when its response
    /// ended, or a read failed or timed out). A response that outgrows
    /// `MAX_RESPONSE_SIZE` is streamed on without being kept; a finished one
    /// is relayed whole.
    pub fn on_upstream_data(&mut self, chunk: &[u8]) -> (r: Action)
        requires
            old(self).wf(),
            old(self)@.stage == Stage::Receiving,
        ensures
            final(self).wf(),
            final(self)@.target == old(self)@.target,
            chunk@.len() == 0 ==> (r matches Action::Relay(bytes) && bytes@ == old(self)@.response
                && final(self)@.stage == Stage::Relaying && final(self)@.response
                == old(self)@.response),
            chunk@.len() > 0 && old(self)@.response.len() + chunk@.len() > MAX_RESPONSE_SIZE
                ==> (r matches Action::StreamRest(bytes) && bytes@ == old(self)@.response + chunk@
                && final(self)@.stage == Stage::Done),
            chunk@.len() > 0 && old(self)@.response.len() + chunk@.len() <= MAX_RESPONSE_SIZE
                ==> (r matches Action::ReadUpstream && final(self)@.response == old(self)@.response
                + chunk@ && final(self)@.stage == Stage::Receiving),
    {
        if chunk.len() == 0 {
            self.stage = Stage::Relaying;
            let mut bytes: Vec<u8> = Vec::new();
            append_slice(&mut bytes, self.response.as_slice());
            return Action::Relay(bytes);
        }
        if chunk.len() > MAX_RESPONSE_SIZE - self.response.len() {
            self.stage = Stage::Done;
            let mut bytes: Vec<u8> = Vec::new();
            append_slice(&mut bytes, self.response.as_slice());
            append_slice(&mut bytes, chunk);
            self.response = Vec::new();
            return Action::StreamRest(bytes);
        }
        append_slice(&mut self.response, chunk);
        Action::ReadUpstream
    }

    /// The response was relayed in full. For a `GET`, stores it in `cache`
    /// at time `now` when it may be cached; returns whether it was stored. A
    /// refusal by the cache (an oversized entry) does not concern the client.
    pub fn on_relayed(&mut self, cache: &mut ProxyCache, now: u64) -> (r: bool)
        requires
            old(self).wf(),
            old(self)@.stage == Stage::Relaying,
            old(cache).wf(),
        ensures
            final(self).wf(),
            final(self)@.stage == Stage::Done,
            final(cache).wf(),
            ({
                let (m, h, port, p) = old(self)@.target->0;
                let entry = spec_cache_entry(old(self)@.response, m, p, now);
                if m == "GET"@ && old(self)@.response.len() <= MAX_RESPONSE_SIZE && entry is Some {
                    final(cache)@ == spec_put(old(cache)@, spec_cache_key(h, port, p), entry->0)
                        && r == (entry_size(entry->0) <= MAX_ENTRY_SIZE)
                } else {
                    final(cache)@ == old(cache)@ && !r
                }
            }),
    {
        self.stage = Stage::Done;
        let q = match &self.target {
            Some(q) => q,
            None => return false,
        };
        if !same_text(q.method.as_str(), "GET") || self.response.len() > MAX_RESPONSE_SIZE {
            return false;
        }
        match parse_response_for_cache(self.response.as_slice(), q.method.as_str(), q.path.as_str(), now) {
            Some(entry) => {
                let key = create_cache_key(q.host.as_str(), q.port, q.path.as_str());
                cache.put(key, entry)
            },
            None => false,
        }
    }
}


/// Once a cacheable response to a `GET` has been stored, a later request
/// naming the same origin and path is answered from the cache, with that
/// entry, until the response's time to live has passed since it was stored,
/// and not from then on.
pub proof fn lemma_repeat_request_served_until_expiry(
    cache: CacheView,
    request: Seq<u8>,
    response: Seq<u8>,
    stored_at: u64,
    later: u64,
)
    requires
        cache_wf(cache),
        spec_validate(request) is Some,
        ({
            let (m, h, port, p) = spec_validate(request)->0;
            &&& m == "GET"@
            &&& spec_cache_entry(response, m, p, stored_at) is Some
            &&& entry_size(spec_cache_entry(response, m, p, stored_at)->0) <= MAX_ENTRY_SIZE
        }),
    ensures
        ({
            let (m, h, port, p) = spec_validate(request)->0;
            let entry = spec_cache_entry(response, m, p, stored_at)->0;
            let key = spec_cache_key(h, port, p);
            let after = spec_put(cache, key, entry);
            &&& entry.expires == stored_at.saturating_add(spec_ttl(entry.headers))
            &&& later < entry.expires ==> spec_get(after, key, later).1 == Some(entry)
            &&& later >= entry.expires ==> spec_get(after, key, later).1 is None
        }),
{
    let (m, h, port, p) = spec_validate(request)->0;
    let entry = spec_cache_entry(response, m, p, stored_at)->0;
    lemma_put_then_get(cache, spec_cache_key(h, port, p), entry, later);
}

} // verus!
