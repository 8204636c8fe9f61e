use vstd::prelude::*;

use crate::state::RequestState;

verus! {

/// A header list as text: each name with its value, in order.
pub open spec fn headers_view(h: Seq<(String, String)>) -> Seq<(Seq<char>, Seq<char>)> {
    h.map_values(|p: (String, String)| (p.0@, p.1@))
}

/// An optional text field as text.
pub open spec fn text_view(o: Option<String>) -> Option<Seq<char>> {
    match o {
        Some(s) => Some(s@),
        None => None,
    }
}

/// An optional byte field as bytes.
pub open spec fn bytes_view(o: Option<Vec<u8>>) -> Option<Seq<u8>> {
    match o {
        Some(b) => Some(b@),
        None => None,
    }
}

/// A copy of a text field.
pub fn copy_text(s: &String) -> (r: String)
    ensures
        r@ == s@,
{
    s.clone()
}

/// A copy of an optional text field.
pub fn copy_opt_text(o: &Option<String>) -> (r: Option<String>)
    ensures
        text_view(r) == text_view(*o),
{
    match o {
        Some(s) => Some(s.clone()),
        None => None,
    }
}

/// A copy of a byte string.
pub fn copy_bytes(b: &Vec<u8>) -> (r: Vec<u8>)
    ensures
        r@ == b@,
{
    let mut r: Vec<u8> = Vec::new();
    let mut i: usize = 0;
    while i < b.len()
        invariant
            i <= b@.len(),
            r@ == b@.subrange(0, i as int),
        decreases b@.len() - i,
    {
        r.push(b[i]);
        i = i + 1;
        assert(r@ =~= b@.subrange(0, i as int));
    }
    assert(r@ =~= b@);
    r
}

/// A copy of an optional byte string.
pub fn copy_opt_bytes(o: &Option<Vec<u8>>) -> (r: Option<Vec<u8>>)
    ensures
        bytes_view(r) == bytes_view(*o),
{
    match o {
        Some(b) => Some(copy_bytes(b)),
        None => None,
    }
}

/// A copy of a header list.
pub fn copy_headers(h: &Vec<(String, String)>) -> (r: Vec<(String, String)>)
    ensures
        r@ == h@,
{
    let mut r: Vec<(String, String)> = Vec::new();
    let mut i: usize = 0;
    while i < h.len()
        invariant
            i <= h@.len(),
            r@ == h@.subrange(0, i as int),
        decreases h@.len() - i,
    {
        let name = h[i].0.clone();
        let value = h[i].1.clone();
        r.push((name, value));
        i = i + 1;
        assert(r@ =~= h@.subrange(0, i as int));
    }
    assert(r@ =~= h@);
    r
}

/// An inbound HTTP request as ingest captured it.
#[derive(Debug)]
pub struct HttpRequest {
    pub method: String,
    pub uri: String,
    pub headers: Vec<(String, String)>,
    pub body: Option<Vec<u8>>,
}

/// An inbound request as text and bytes.
pub struct HttpRequestView {
    pub method: Seq<char>,
    pub uri: Seq<char>,
    pub headers: Seq<(Seq<char>, Seq<char>)>,
    pub body: Option<Seq<u8>>,
}

impl View for HttpRequest {
    type V = HttpRequestView;

    open spec fn view(&self) -> HttpRequestView {
        HttpRequestView {
            method: self.method@,
            uri: self.uri@,
            headers: headers_view(self.headers@),
            body: bytes_view(self.body),
        }
    }
}

impl HttpRequest {
    /// A copy of this request.
    pub fn copy(&self) -> (r: HttpRequest)
        ensures
            r@ == self@,
    {
        HttpRequest {
            method: copy_text(&self.method),
            uri: copy_text(&self.uri),
            headers: copy_headers(&self.headers),
            body: copy_opt_bytes(&self.body),
        }
    }
}

/// A persisted request, as a drive carries it.
#[derive(Debug)]
pub struct QueuedRequest {
    pub id: i64,
    pub method: String,
    pub uri: String,
    pub headers: Vec<(String, String)>,
    pub body: Option<Vec<u8>>,
    pub state: RequestState,
}

/// The contents of a `QueuedRequest` as text, bytes and numbers.
pub struct QueuedRequestView {
    pub id: i64,
    pub method: Seq<char>,
    pub uri: Seq<char>,
    pub headers: Seq<(Seq<char>, Seq<char>)>,
    pub body: Option<Seq<u8>>,
    pub state: RequestState,
}

impl View for QueuedRequest {
    type V = QueuedRequestView;

    open spec fn view(&self) -> QueuedRequestView {
        QueuedRequestView {
            id: self.id,
            method: self.method@,
            uri: self.uri@,
            headers: headers_view(self.headers@),
            body: bytes_view(self.body),
            state: self.state,
        }
    }
}

/// A row of the requests table.
#[derive(Debug)]
pub struct Request {
    pub id: i64,
    pub method: String,
    pub uri: String,
    pub headers: Vec<(String, String)>,
    pub body: Option<Vec<u8>>,
    pub state: RequestState,
    /// Unix seconds of ingest.
    pub created_at: i64,
    /// Unix milliseconds before which the retry queue leaves the request alone.
    pub retry_ms_at: Option<i64>,
    /// The request that this one was forked from, if any.
    pub from_request_id: Option<i64>,
}

/// The contents of a `Request` as text, bytes and numbers.
pub struct RequestView {
    pub id: i64,
    pub method: Seq<char>,
    pub uri: Seq<char>,
    pub headers: Seq<(Seq<char>, Seq<char>)>,
    pub body: Option<Seq<u8>>,
    pub state: RequestState,
    pub created_at: i64,
    pub retry_ms_at: Option<i64>,
    pub from_request_id: Option<i64>,
}

impl View for Request {
    type V = RequestView;

    open spec fn view(&self) -> RequestView {
        RequestView {
            id: self.id,
            method: self.method@,
            uri: self.uri@,
            headers: headers_view(self.headers@),
            body: bytes_view(self.body),
            state: self.state,
            created_at: self.created_at,
            retry_ms_at: self.retry_ms_at,
            from_request_id: self.from_request_id,
        }
    }
}

impl Request {
    /// A copy of this row.
    pub fn copy(&self) -> (r: Request)
        ensures
            r@ == self@,
    {
        Request {
            id: self.id,
            method: copy_text(&self.method),
            uri: copy_text(&self.uri),
            headers: copy_headers(&self.headers),
            body: copy_opt_bytes(&self.body),
            state: self.state,
            created_at: self.created_at,
            retry_ms_at: self.retry_ms_at,
            from_request_id: self.from_request_id,
        }
    }

    /// This row as a drive carries it.
    pub fn to_queued(&self) -> (r: QueuedRequest)
        ensures
            r@ == queued_view(self@),
    {
        QueuedRequest {
            id: self.id,
            method: copy_text(&self.method),
            uri: copy_text(&self.uri),
            headers: copy_headers(&self.headers),
            body: copy_opt_bytes(&self.body),
            state: self.state,
        }
    }
}

/// A row as a drive carries it.
pub open spec fn queued_view(r: RequestView) -> QueuedRequestView {
    QueuedRequestView {
        id: r.id,
        method: r.method,
        uri: r.uri,
        headers: r.headers,
        body: r.body,
        state: r.state,
    }
}

/// A row of the attempts table: one delivery try.
#[derive(Debug)]
pub struct Attempt {
    pub id: i64,
    pub request_id: i64,
    pub response_status: i64,
    pub response_body: Vec<u8>,
    /// Unix seconds of the try.
    pub created_at: i64,
}

/// The contents of an `Attempt` as text, bytes and numbers.
pub struct AttemptView {
    pub id: i64,
    pub request_id: i64,
    pub response_status: i64,
    pub response_body: Seq<u8>,
    pub created_at: i64,
}

impl View for Attempt {
    type V = AttemptView;

    open spec fn view(&self) -> AttemptView {
        AttemptView {
            id: self.id,
            request_id: self.request_id,
            response_status: self.response_status,
            response_body: self.response_body@,
            created_at: self.created_at,
        }
    }
}

impl Attempt {
    /// A copy of this row.
    pub fn copy(&self) -> (r: Attempt)
        ensures
            r@ == self@,
    {
        Attempt {
            id: self.id,
            request_id: self.request_id,
            response_status: self.response_status,
            response_body: copy_bytes(&self.response_body),
            created_at: self.created_at,
        }
    }
}

/// The fields of an origin that management sets.
#[derive(Debug, Default)]
pub struct NewOrigin {
    pub domain: String,
    pub origin_uri: String,
    pub timeout: u32,
    pub alert_threshold: Option<u16>,
    pub alert_email: Option<String>,
    pub smtp_host: Option<String>,
    pub smtp_username: Option<String>,
    pub smtp_password: Option<String>,
    pub smtp_port: Option<u16>,
    pub smtp_tls: bool,
}

/// A row of the origins table: a configured upstream.
#[derive(Debug)]
pub struct Origin {
    pub id: i64,
    /// The Host authority that requests for this origin carry.
    pub domain: String,
    /// Where requests are sent: its scheme and authority are kept, the path
    /// and query come from each request.
    pub origin_uri: String,
    /// Milliseconds that one try may take.
    pub timeout: u32,
    pub alert_threshold: Option<u16>,
    pub alert_email: Option<String>,
    pub smtp_host: Option<String>,
    pub smtp_username: Option<String>,
    pub smtp_password: Option<String>,
    pub smtp_port: Option<u16>,
    pub smtp_tls: bool,
    pub created_at: i64,
    pub updated_at: i64,
}

/// The contents of an `Origin` row as text, bytes and numbers.
pub struct OriginView {
    pub id: i64,
    pub domain: Seq<char>,
    pub origin_uri: Seq<char>,
    pub timeout: u32,
    pub alert_threshold: Option<u16>,
    pub alert_email: Option<Seq<char>>,
    pub smtp_host: Option<Seq<char>>,
    pub smtp_username: Option<Seq<char>>,
    pub smtp_password: Option<Seq<char>>,
    pub smtp_port: Option<u16>,
    pub smtp_tls: bool,
    pub created_at: i64,
    pub updated_at: i64,
}

impl View for Origin {
    type V = OriginView;

    open spec fn view(&self) -> OriginView {
        OriginView {
            id: self.id,
            domain: self.domain@,
            origin_uri: self.origin_uri@,
            timeout: self.timeout,
            alert_threshold: self.alert_threshold,
            alert_email: text_view(self.alert_email),
            smtp_host: text_view(self.smtp_host),
            smtp_username: text_view(self.smtp_username),
            smtp_password: text_view(self.smtp_password),
            smtp_port: self.smtp_port,
            smtp_tls: self.smtp_tls,
            created_at: self.created_at,
            updated_at: self.updated_at,
        }
    }
}

impl Origin {
    /// A copy of this row.
    pub fn copy(&self) -> (r: Origin)
        ensures
            r@ == self@,
    {
        Origin {
            id: self.id,
            domain: copy_text(&self.domain),
            origin_uri: copy_text(&self.origin_uri),
            timeout: self.timeout,
            alert_threshold: self.alert_threshold,
            alert_email: copy_opt_text(&self.alert_email),
            smtp_host: copy_opt_text(&self.smtp_host),
            smtp_username: copy_opt_text(&self.smtp_username),
            smtp_password: copy_opt_text(&self.smtp_password),
            smtp_port: self.smtp_port,
            smtp_tls: self.smtp_tls,
            created_at: self.created_at,
            updated_at: self.updated_at,
        }
    }
}

/// A new request forked from a stored one by an operator.
#[derive(Debug)]
pub struct UpdateRequest {
    pub method: String,
    pub uri: String,
    pub headers: Vec<(String, String)>,
    pub body: Vec<u8>,
}

/// One page of a listing with the number of all matching rows.
#[derive(Debug)]
pub struct GetListResponse<T> {
    pub total: i64,
    pub items: Vec<T>,
}

} // verus!
