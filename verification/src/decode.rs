//! Decoding of the two upstream response shapes out of the JSON model: the
//! paginated artist-list envelope (`topartists.@attr.page`,
//! `topartists.@attr.totalPages`, `topartists.artist`) and a tag response
//! (`toptags.tag`). Every decoder is pinned to a spec function that says,
//! for every document, exactly which value or which error comes back.

use crate::json::JsonValue;
use crate::json::spec_get;
use crate::numstr::parse_u32;
use crate::numstr::parse_u32_spec;
use crate::numstr::parse_u64;
use crate::numstr::parse_u64_spec;
use crate::records::Artist;
use crate::records::ArtistView;
use crate::records::DecodeError;
use crate::records::Tag;
use crate::records::TagView;
use crate::records::artist_views;
use crate::records::tag_views;
use vstd::prelude::*;

verus! {

/// One page of the artist listing, decoded: its pagination counters and its
/// items.
#[derive(Debug)]
pub struct PageEnvelope {
    pub page: u64,
    pub total_pages: u64,
    pub artists: Vec<Artist>,
}

pub struct EnvelopeView {
    pub page: u64,
    pub total_pages: u64,
    pub artists: Seq<ArtistView>,
}

impl View for PageEnvelope {
    type V = EnvelopeView;

    open spec fn view(&self) -> EnvelopeView {
        EnvelopeView {
            page: self.page,
            total_pages: self.total_pages,
            artists: artist_views(self.artists@),
        }
    }
}

pub open spec fn spec_decode_artist(v: JsonValue) -> Result<ArtistView, DecodeError> {
    match spec_get(v, "name"@) {
        None => Err(DecodeError::MissingKey),
        Some(nv) => match nv {
            JsonValue::Text(name) => match spec_get(v, "playcount"@) {
                None => Err(DecodeError::MissingKey),
                Some(pv) => match pv {
                    JsonValue::Text(p) => match parse_u32_spec(p@) {
                        None => Err(DecodeError::BadNumber),
                        Some(pc) => match spec_get(v, "url"@) {
                            None => Err(DecodeError::MissingKey),
                            Some(uv) => match uv {
                                JsonValue::Text(u) => Ok(
                                    ArtistView { name: name@, playcount: pc, url: u@ },
                                ),
                                _ => Err(DecodeError::WrongType),
                            },
                        },
                    },
                    _ => Err(DecodeError::WrongType),
                },
            },
            _ => Err(DecodeError::WrongType),
        },
    }
}

/// Decodes `{name, playcount (decimal string), url}`; the spec function
/// fixes which error each malformed document yields.
pub fn decode_artist(v: &JsonValue) -> (r: Result<Artist, DecodeError>)
    ensures
        match r {
            Ok(a) => spec_decode_artist(*v) == Ok::<ArtistView, DecodeError>(a@),
            Err(e) => spec_decode_artist(*v) == Err::<ArtistView, DecodeError>(e),
        },
{
    let nv = match v.get("name") {
        Some(x) => x,
        None => {
            return Err(DecodeError::MissingKey);
        },
    };
    let name: &String = match nv {
        JsonValue::Text(s) => s,
        _ => {
            return Err(DecodeError::WrongType);
        },
    };
    let pv = match v.get("playcount") {
        Some(x) => x,
        None => {
            return Err(DecodeError::MissingKey);
        },
    };
    let ps: &String = match pv {
        JsonValue::Text(s) => s,
        _ => {
            return Err(DecodeError::WrongType);
        },
    };
    let pc = match parse_u32(ps.as_str()) {
        Some(x) => x,
        None => {
            return Err(DecodeError::BadNumber);
        },
    };
    let uv = match v.get("url") {
        Some(x) => x,
        None => {
            return Err(DecodeError::MissingKey);
        },
    };
    let url: &String = match uv {
        JsonValue::Text(s) => s,
        _ => {
            return Err(DecodeError::WrongType);
        },
    };
    Ok(Artist { name: name.clone(), playcount: pc, url: url.clone() })
}

/// Decodes a whole item array, in order; the first malformed element's
/// error aborts the decode.
pub open spec fn spec_decode_artist_seq(items: Seq<JsonValue>) -> Result<
    Seq<ArtistView>,
    DecodeError,
>
    decreases items.len(),
{
    if items.len() == 0 {
        Ok(Seq::empty())
    } else {
        match spec_decode_artist_seq(items.drop_last()) {
            Err(e) => Err(e),
            Ok(rest) => match spec_decode_artist(items.last()) {
                Err(e) => Err(e),
                Ok(a) => Ok(rest.push(a)),
            },
        }
    }
}

proof fn lemma_decode_artist_seq_err(items: Seq<JsonValue>, i: int)
    requires
        0 <= i <= items.len(),
        spec_decode_artist_seq(items.subrange(0, i)) is Err,
    ensures
        spec_decode_artist_seq(items) == spec_decode_artist_seq(items.subrange(0, i)),
    decreases items.len(),
{
    if i < items.len() {
        assert(items.drop_last().subrange(0, i) =~= items.subrange(0, i));
        lemma_decode_artist_seq_err(items.drop_last(), i);
    } else {
        assert(items.subrange(0, i) =~= items);
    }
}

pub fn decode_artist_vec(items: &Vec<JsonValue>) -> (r: Result<Vec<Artist>, DecodeError>)
    ensures
        match r {
            Ok(arts) => spec_decode_artist_seq(items@) == Ok::<Seq<ArtistView>, DecodeError>(
                artist_views(arts@),
            ),
            Err(e) => spec_decode_artist_seq(items@) == Err::<Seq<ArtistView>, DecodeError>(e),
        },
{
    let mut out: Vec<Artist> = Vec::new();
    let n = items.len();
    let mut i: usize = 0;
    proof {
        assert(artist_views(out@) =~= Seq::<ArtistView>::empty());
    }
    while i < n
        invariant
            0 <= i <= n,
            n == items@.len(),
            spec_decode_artist_seq(items@.subrange(0, i as int)) == Ok::<
                Seq<ArtistView>,
                DecodeError,
            >(artist_views(out@)),
        decreases n - i,
    {
        proof {
            assert(items@.subrange(0, i + 1).drop_last() =~= items@.subrange(0, i as int));
            assert(items@.subrange(0, i + 1).last() == items@[i as int]);
        }
        match decode_artist(&items[i]) {
            Ok(a) => {
                let ghost prev = artist_views(out@);
                let ghost av = a@;
                out.push(a);
                proof {
                    assert(artist_views(out@) =~= prev.push(av));
                }
            },
            Err(e) => {
                proof {
                    lemma_decode_artist_seq_err(items@, i + 1);
                }
                return Err(e);
            },
        }
        i = i + 1;
    }
    proof {
        assert(items@.subrange(0, n as int) =~= items@);
    }
    Ok(out)
}

pub open spec fn spec_decode_envelope(v: JsonValue) -> Result<EnvelopeView, DecodeError> {
    match spec_get(v, "topartists"@) {
        None => Err(DecodeError::MissingKey),
        Some(ta) => match spec_get(ta, "@attr"@) {
            None => Err(DecodeError::MissingKey),
            Some(attr) => match spec_get(attr, "page"@) {
                None => Err(DecodeError::MissingKey),
                Some(pv) => match pv {
                    JsonValue::Text(p) => match parse_u64_spec(p@) {
                        None => Err(DecodeError::BadNumber),
                        Some(page) => match spec_get(attr, "totalPages"@) {
                            None => Err(DecodeError::MissingKey),
                            Some(tv) => match tv {
                                JsonValue::Text(t) => match parse_u64_spec(t@) {
                                    None => Err(DecodeError::BadNumber),
                                    Some(total_pages) => match spec_get(ta, "artist"@) {
                                        None => Err(DecodeError::MissingKey),
                                        Some(av) => match av {
                                            JsonValue::Array(items) => match
                                            spec_decode_artist_seq(items@) {
                                                Err(e) => Err(e),
                                                Ok(arts) => Ok(
                                                    EnvelopeView {
                                                        page,
                                                        total_pages,
                                                        artists: arts,
                                                    },
                                                ),
                                            },
                                            _ => Err(DecodeError::WrongType),
                                        },
                                    },
                                },
                                _ => Err(DecodeError::WrongType),
                            },
                        },
                    },
                    _ => Err(DecodeError::WrongType),
                },
            },
        },
    }
}

/// Decodes one page of the artist listing. The pagination counters travel
/// as decimal strings inside `topartists.@attr`; the items under
/// `topartists.artist`. Any missing key, wrong shape or unparseable number
/// is the error the spec function assigns to it.
pub fn decode_envelope(v: &JsonValue) -> (r: Result<PageEnvelope, DecodeError>)
    ensures
        match r {
            Ok(env) => spec_decode_envelope(*v) == Ok::<EnvelopeView, DecodeError>(env@),
            Err(e) => spec_decode_envelope(*v) == Err::<EnvelopeView, DecodeError>(e),
        },
{
    let ta = match v.get("topartists") {
        Some(x) => x,
        None => {
            return Err(DecodeError::MissingKey);
        },
    };
    let attr = match ta.get("@attr") {
        Some(x) => x,
        None => {
            return Err(DecodeError::MissingKey);
        },
    };
    let pv = match attr.get("page") {
        Some(x) => x,
        None => {
            return Err(DecodeError::MissingKey);
        },
    };
    let ps: &String = match pv {
        JsonValue::Text(s) => s,
        _ => {
            return Err(DecodeError::WrongType);
        },
    };
    let page = match parse_u64(ps.as_str()) {
        Some(x) => x,
        None => {
            return Err(DecodeError::BadNumber);
        },
    };
    let tv = match attr.get("totalPages") {
        Some(x) => x,
        None => {
            return Err(DecodeError::MissingKey);
        },
    };
    let ts: &String = match tv {
        JsonValue::Text(s) => s,
        _ => {
            return Err(DecodeError::WrongType);
        },
    };
    let total_pages = match parse_u64(ts.as_str()) {
        Some(x) => x,
        None => {
            return Err(DecodeError::BadNumber);
        },
    };
    let av = match ta.get("artist") {
        Some(x) => x,
        None => {
            return Err(DecodeError::MissingKey);
        },
    };
    let items: &Vec<JsonValue> = match av {
        JsonValue::Array(xs) => xs,
        _ => {
            return Err(DecodeError::WrongType);
        },
    };
    let artists = match decode_artist_vec(items) {
        Ok(xs) => xs,
        Err(e) => {
            return Err(e);
        },
    };
    Ok(PageEnvelope { page, total_pages, artists })
}

pub open spec fn spec_decode_tag(v: JsonValue) -> Result<TagView, DecodeError> {
    match spec_get(v, "name"@) {
        None => Err(DecodeError::MissingKey),
        Some(nv) => match nv {
            JsonValue::Text(name) => match spec_get(v, "count"@) {
                None => Err(DecodeError::MissingKey),
                Some(cv) => match cv {
                    JsonValue::Number(c) => if c <= u32::MAX {
                        match spec_get(v, "url"@) {
                            None => Err(DecodeError::MissingKey),
                            Some(uv) => match uv {
                                JsonValue::Text(u) => Ok(
                                    TagView { name: name@, count: c as u32, url: u@ },
                                ),
                                _ => Err(DecodeError::WrongType),
                            },
                        }
                    } else {
                        Err(DecodeError::BadNumber)
                    },
                    _ => Err(DecodeError::WrongType),
                },
            },
            _ => Err(DecodeError::WrongType),
        },
    }
}

/// Decodes `{name, count (number), url}`; the spec function fixes which
/// error each malformed document yields.
pub fn decode_tag(v: &JsonValue) -> (r: Result<Tag, DecodeError>)
    ensures
        match r {
            Ok(t) => spec_decode_tag(*v) == Ok::<TagView, DecodeError>(t@),
            Err(e) => spec_decode_tag(*v) == Err::<TagView, DecodeError>(e),
        },
{
    let nv = match v.get("name") {
        Some(x) => x,
        None => {
            return Err(DecodeError::MissingKey);
        },
    };
    let name: &String = match nv {
        JsonValue::Text(s) => s,
        _ => {
            return Err(DecodeError::WrongType);
        },
    };
    let cv = match v.get("count") {
        Some(x) => x,
        None => {
            return Err(DecodeError::MissingKey);
        },
    };
    let c: u64 = match cv {
        JsonValue::Number(c) => *c,
        _ => {
            return Err(DecodeError::WrongType);
        },
    };
    if c > u32::MAX as u64 {
        return Err(DecodeError::BadNumber);
    }
    let uv = match v.get("url") {
        Some(x) => x,
        None => {
            return Err(DecodeError::MissingKey);
        },
    };
    let url: &String = match uv {
        JsonValue::Text(s) => s,
        _ => {
            return Err(DecodeError::WrongType);
        },
    };
    Ok(Tag { name: name.clone(), count: c as u32, url: url.clone() })
}

pub open spec fn spec_decode_tag_seq(items: Seq<JsonValue>) -> Result<Seq<TagView>, DecodeError>
    decreases items.len(),
{
    if items.len() == 0 {
        Ok(Seq::empty())
    } else {
        match spec_decode_tag_seq(items.drop_last()) {
            Err(e) => Err(e),
            Ok(rest) => match spec_decode_tag(items.last()) {
                Err(e) => Err(e),
                Ok(t) => Ok(rest.push(t)),
            },
        }
    }
}

proof fn lemma_decode_tag_seq_err(items: Seq<JsonValue>, i: int)
    requires
        0 <= i <= items.len(),
        spec_decode_tag_seq(items.subrange(0, i)) is Err,
    ensures
        spec_decode_tag_seq(items) == spec_decode_tag_seq(items.subrange(0, i)),
    decreases items.len(),
{
    if i < items.len() {
        assert(items.drop_last().subrange(0, i) =~= items.subrange(0, i));
        lemma_decode_tag_seq_err(items.drop_last(), i);
    } else {
        assert(items.subrange(0, i) =~= items);
    }
}

pub fn decode_tag_vec(items: &Vec<JsonValue>) -> (r: Result<Vec<Tag>, DecodeError>)
    ensures
        match r {
            Ok(tags) => spec_decode_tag_seq(items@) == Ok::<Seq<TagView>, DecodeError>(
                tag_views(tags@),
            ),
            Err(e) => spec_decode_tag_seq(items@) == Err::<Seq<TagView>, DecodeError>(e),
        },
{
    let mut out: Vec<Tag> = Vec::new();
    let n = items.len();
    let mut i: usize = 0;
    proof {
        assert(tag_views(out@) =~= Seq::<TagView>::empty());
    }
    while i < n
        invariant
            0 <= i <= n,
            n == items@.len(),
            spec_decode_tag_seq(items@.subrange(0, i as int)) == Ok::<Seq<TagView>, DecodeError>(
                tag_views(out@),
            ),
        decreases n - i,
    {
        proof {
            assert(items@.subrange(0, i + 1).drop_last() =~= items@.subrange(0, i as int));
            assert(items@.subrange(0, i + 1).last() == items@[i as int]);
        }
        match decode_tag(&items[i]) {
            Ok(t) => {
                let ghost prev = tag_views(out@);
                let ghost tv = t@;
                out.push(t);
                proof {
                    assert(tag_views(out@) =~= prev.push(tv));
                }
            },
            Err(e) => {
                proof {
                    lemma_decode_tag_seq_err(items@, i + 1);
                }
                return Err(e);
            },
        }
        i = i + 1;
    }
    proof {
        assert(items@.subrange(0, n as int) =~= items@);
    }
    Ok(out)
}

pub open spec fn spec_decode_tags_doc(v: JsonValue) -> Result<Seq<TagView>, DecodeError> {
    match spec_get(v, "toptags"@) {
        None => Err(DecodeError::MissingKey),
        Some(tt) => match spec_get(tt, "tag"@) {
            None => Err(DecodeError::MissingKey),
            Some(av) => match av {
                JsonValue::Array(items) => spec_decode_tag_seq(items@),
                _ => Err(DecodeError::WrongType),
            },
        },
    }
}

/// Decodes a whole tag response: the array under `toptags.tag`.
pub fn decode_tags_doc(v: &JsonValue) -> (r: Result<Vec<Tag>, DecodeError>)
    ensures
        match r {
            Ok(tags) => spec_decode_tags_doc(*v) == Ok::<Seq<TagView>, DecodeError>(
                tag_views(tags@),
            ),
            Err(e) => spec_decode_tags_doc(*v) == Err::<Seq<TagView>, DecodeError>(e),
        },
{
    let tt = match v.get("toptags") {
        Some(x) => x,
        None => {
            return Err(DecodeError::MissingKey);
        },
    };
    let av = match tt.get("tag") {
        Some(x) => x,
        None => {
            return Err(DecodeError::MissingKey);
        },
    };
    let items: &Vec<JsonValue> = match av {
        JsonValue::Array(xs) => xs,
        _ => {
            return Err(DecodeError::WrongType);
        },
    };
    decode_tag_vec(items)
}

} // verus!
