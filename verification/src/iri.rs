//! Identifiers on the wire: absolute URLs, parsed and normalized by the
//! `url` crate and carried through the library as their serializations.

use vstd::prelude::*;

verus! {

/// What `url::Url::parse` makes of a text: nothing when the text is not an
/// absolute URL, else the parsed URL's serialization.  The result depends
/// on the characters alone.
pub uninterp spec fn url_normalized(s: Seq<char>) -> Option<Seq<char>>;

/// Relies on `url::Url::parse` and `url::Url::as_str`: parsing either
/// rejects the text or yields a URL whose stored serialization `as_str`
/// returns; by the URL Standard the crate implements, parsing a
/// serialization it produced returns a URL with that same serialization.
#[verifier::external_body]
pub fn parse_url(s: &str) -> (r: Option<String>)
    ensures
        r is Some <==> url_normalized(s@) is Some,
        r matches Some(t) ==> url_normalized(s@) == Some(t@) && url_normalized(t@) == Some(t@),
{
    match url::Url::parse(s) {
        Ok(u) => Some(String::from(u.as_str())),
        Err(_) => None,
    }
}

/// A text that is its own URL normalization: the form identifiers take
/// inside decoded values.
pub open spec fn normalized_iri(s: Seq<char>) -> bool {
    url_normalized(s) == Some(s)
}

} // verus!
