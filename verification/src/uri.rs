//! Request URIs.

use hyper::Uri;
use vstd::prelude::*;

use crate::text;

verus! {

/// `hyper::Uri`, a parsed URI.
#[verifier::external_type_specification]
#[verifier::external_body]
pub struct ExUri(Uri);

/// The path of a URI.
pub uninterp spec fn uri_path(uri: Uri) -> Seq<char>;

/// The path and query of a URI, if it has them.
pub uninterp spec fn uri_target(uri: Uri) -> Option<Seq<char>>;

/// The authority of a URI, if it has one.
pub uninterp spec fn uri_authority(uri: Uri) -> Option<Seq<char>>;

/// The URI that a text is parsed as, if it is one.
pub uninterp spec fn parsed_uri(text: Seq<char>) -> Option<Uri>;

/// How long the text of a URI may be.
pub const MAX_LEN: usize = 65534;

/// Where the authority stands in the text of an `http` URI: behind the scheme,
/// up to the path, the query or the fragment.
pub open spec fn authority_part(text: Seq<char>) -> Seq<char> {
    text::head_until(text.skip(7), seq!['/', '?', '#'])
}

/// Where the path and query stand in the text of an `http` URI: behind the
/// authority, up to the fragment. A missing path is `/`.
pub open spec fn target_part(text: Seq<char>) -> Seq<char> {
    let target = text::head_until(text.skip(7 + authority_part(text).len() as int), seq!['#']);
    if target.len() == 0 {
        "/"@
    } else {
        target
    }
}

/// `Uri::path` gives the path.
#[verifier::external_body]
pub(crate) fn path_of(uri: &Uri) -> (path: &str)
    ensures
        path@ == uri_path(*uri),
{
    uri.path()
}

/// `Uri::path_and_query` gives the path and query as they were written. Where
/// they are no longer than a whole URI may be, they hold no fragment. A URI that
/// is put together from its parts can have longer ones, of which nothing is said.
#[verifier::external_body]
pub(crate) fn target_of(uri: &Uri) -> (target: Option<&str>)
    ensures
        target is Some <==> uri_target(*uri) is Some,
        target matches Some(t) ==> uri_target(*uri) == Some(t@) && (t@.len() <= MAX_LEN
            ==> !t@.contains('#')),
{
    uri.path_and_query().map(|target| target.as_str())
}

/// `Uri::from_str` parses a text. It refuses one that is too long. Of an `http` URI, the authority and the path
/// and query are those that stand in the text.
#[verifier::external_body]
pub(crate) fn parse_uri(text: &str) -> (uri: Option<Uri>)
    ensures
        uri == parsed_uri(text@),
        uri is Some ==> text@.len() <= MAX_LEN,
        text::begins_with(text@, "http://"@) ==> (uri matches Some(u) ==> {
            &&& uri_authority(u) == Some(authority_part(text@))
            &&& uri_target(u) == Some(target_part(text@))
        }),
{
    text.parse().ok()
}

} // verus!
