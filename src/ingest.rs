use vstd::prelude::*;

use crate::error::AppError;
use crate::record::HttpRequest;

verus! {

/// The largest inbound body that ingest accepts, in bytes.
pub const MAX_BODY_BYTES: usize = 1_000_000;

/// The request that ingest captures from an inbound call, or why it refuses
/// it: a body over `MAX_BODY_BYTES` bytes.
pub fn capture(method: String, uri: String, headers: Vec<(String, String)>, body: Vec<u8>) -> (r: Result<HttpRequest, AppError>)
    ensures
        body@.len() > MAX_BODY_BYTES <==> r == Err::<HttpRequest, AppError>(AppError::BodyTooLarge),
        body@.len() <= MAX_BODY_BYTES ==> r is Ok,
        r matches Ok(req) ==> req.method@ == method@ && req.uri@ == uri@ && req.headers@ == headers@
            && (req.body matches Some(b) && b@ == body@),
{
    if body.len() > MAX_BODY_BYTES {
        return Err(AppError::BodyTooLarge);
    }
    Ok(HttpRequest { method, uri, headers, body: Some(body) })
}

} // verus!
