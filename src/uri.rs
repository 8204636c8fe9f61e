use vstd::prelude::*;

use crate::record::text_view;

verus! {

/// The parts of a URI, as text.
#[derive(Debug)]
pub struct UriParts {
    pub scheme: Option<String>,
    pub authority: Option<String>,
    pub path_and_query: Option<String>,
}

/// The parts of a URI as character sequences.
pub struct UriPartsView {
    pub scheme: Option<Seq<char>>,
    pub authority: Option<Seq<char>>,
    pub path_and_query: Option<Seq<char>>,
}

impl View for UriParts {
    type V = UriPartsView;

    open spec fn view(&self) -> UriPartsView {
        UriPartsView {
            scheme: text_view(self.scheme),
            authority: text_view(self.authority),
            path_and_query: text_view(self.path_and_query),
        }
    }
}

/// The parts of a text read as a URI, or `None` where it is no URI.
pub uninterp spec fn uri_parts_of(s: Seq<char>) -> Option<UriPartsView>;

/// Whether a text is a valid URI authority.
pub uninterp spec fn is_valid_authority(s: Seq<char>) -> bool;

/// Relies on hyper's `Uri::try_from(&str)` and `Uri::into_parts`: whether the
/// text parses as a URI, and its scheme, authority and path with query as
/// text.
#[verifier::external_body]
pub(crate) fn parse_uri(s: &str) -> (r: Option<UriParts>)
    ensures
        r is Some <==> uri_parts_of(s@) is Some,
        r matches Some(p) ==> p@ == uri_parts_of(s@).unwrap(),
{
    let parts = hyper::Uri::try_from(s).ok()?.into_parts();
    Some(UriParts {
        scheme: parts.scheme.map(|x| x.as_str().to_string()),
        authority: parts.authority.map(|x| x.as_str().to_string()),
        path_and_query: parts.path_and_query.map(|x| x.as_str().to_string()),
    })
}

/// Relies on hyper's `uri::Authority::from_str`: whether the text is a valid
/// authority. A valid authority keeps the text as it was given.
#[verifier::external_body]
pub(crate) fn check_authority(s: &str) -> (r: bool)
    ensures
        r == is_valid_authority(s@),
{
    s.parse::<hyper::http::uri::Authority>().is_ok()
}

} // verus!
