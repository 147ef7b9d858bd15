//! Request URLs for the two upstream endpoints, spelled out exactly by
//! spec functions over the configured user, API key and page or artist.
//! The artist name is the one query value that carries arbitrary text, so
//! it is percent-encoded; user and API key are embedded as given.

use crate::numstr::digits_of;
use crate::numstr::format_u64;
use vstd::prelude::*;
use vstd::string::StringExecFns;

verus! {

/// The percent-encoding of a string for use as a URL query value. Named,
/// not spelled out: it is a function of the input characters alone.
pub uninterp spec fn url_encoded_of(s: Seq<char>) -> Seq<char>;

/// Relies on urlencoding::encode: percent-encodes every byte outside the
/// unreserved URL set; the result depends on the input characters alone.
#[verifier::external_body]
fn url_encode(s: &str) -> (r: String)
    ensures
        r@ == url_encoded_of(s@),
{
    urlencoding::encode(s).into_owned()
}

pub open spec fn spec_artist_page_url(user: Seq<char>, api_key: Seq<char>, page: u64) -> Seq<
    char,
> {
    "https://ws.audioscrobbler.com/2.0/?method=user.gettopartists&user="@ + user + "&api_key="@
        + api_key + "&page="@ + digits_of(page as nat) + "&format=json"@
}

/// The artist-list URL for one page.
pub fn artist_page_url(user: &str, api_key: &str, page: u64) -> (r: String)
    ensures
        r@ == spec_artist_page_url(user@, api_key@, page),
{
    let mut u: String =
        "https://ws.audioscrobbler.com/2.0/?method=user.gettopartists&user=".to_owned();
    u.append(user);
    u.append("&api_key=");
    u.append(api_key);
    u.append("&page=");
    let p = format_u64(page);
    u.append(p.as_str());
    u.append("&format=json");
    proof {
        assert(u@ =~= spec_artist_page_url(user@, api_key@, page));
    }
    u
}

pub open spec fn spec_tags_url(artist: Seq<char>, api_key: Seq<char>) -> Seq<char> {
    "https://ws.audioscrobbler.com/2.0/?method=artist.gettoptags&artist="@ + url_encoded_of(artist)
        + "&api_key="@ + api_key + "&period=12month&format=json"@
}

/// The tag URL for one artist; the artist name is percent-encoded.
pub fn tags_url(artist: &str, api_key: &str) -> (r: String)
    ensures
        r@ == spec_tags_url(artist@, api_key@),
{
    let mut u: String =
        "https://ws.audioscrobbler.com/2.0/?method=artist.gettoptags&artist=".to_owned();
    let enc = url_encode(artist);
    u.append(enc.as_str());
    u.append("&api_key=");
    u.append(api_key);
    u.append("&period=12month&format=json");
    proof {
        assert(u@ =~= spec_tags_url(artist@, api_key@));
    }
    u
}

/// Whether an HTTP status counts as success: the 2xx class. A tag fetch
/// with any other status is a failure for that artist.
pub fn status_is_success(code: u16) -> (r: bool)
    ensures
        r == (200 <= code && code < 300),
{
    200 <= code && code < 300
}

} // verus!
