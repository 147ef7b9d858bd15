//! The two cache artifacts, as JSON documents. The artist cache is an array
//! of artist objects in the wire shape — `playcount` as a decimal string —
//! so a cached list reads back exactly as a fetched one. The tag cache is an
//! array of `{name, play_count}` objects with the count as a plain number.
//! Each encoder's contract is the round trip itself: decoding what it
//! produced yields exactly the encoded records, so a run that wrote a cache
//! and a later run that reads it agree.

use crate::decode::spec_decode_artist;
use crate::decode::spec_decode_artist_seq;
use crate::json::JsonValue;
use crate::json::lookup_field;
use crate::json::spec_get;
use crate::numstr::digits_of;
use crate::numstr::format_u64;
use crate::numstr::lemma_digits_of_all_digits;
use crate::numstr::lemma_digits_of_val;
use crate::numstr::parse_u32_spec;
use crate::records::Artist;
use crate::records::ArtistView;
use crate::records::DecodeError;
use crate::records::TopTag;
use crate::records::TopTagView;
use crate::records::artist_views;
use crate::records::top_tag_views;
use vstd::prelude::*;

verus! {

/// What decoding the artist cache yields: the file must hold an array of
/// well-formed artist objects.
pub open spec fn spec_decode_artists_cache(v: JsonValue) -> Result<Seq<ArtistView>, DecodeError> {
    match v {
        JsonValue::Array(items) => spec_decode_artist_seq(items@),
        _ => Err(DecodeError::WrongType),
    }
}

/// Decodes a whole artist cache document.
pub fn decode_artists_cache(v: &JsonValue) -> (r: Result<Vec<Artist>, DecodeError>)
    ensures
        match r {
            Ok(arts) => spec_decode_artists_cache(*v) == Ok::<Seq<ArtistView>, DecodeError>(
                artist_views(arts@),
            ),
            Err(e) => spec_decode_artists_cache(*v) == Err::<Seq<ArtistView>, DecodeError>(e),
        },
{
    match v {
        JsonValue::Array(items) => crate::decode::decode_artist_vec(items),
        _ => Err(DecodeError::WrongType),
    }
}

/// Encodes one artist in the wire shape.
pub fn encode_artist(a: &Artist) -> (r: JsonValue)
    ensures
        spec_decode_artist(r) == Ok::<ArtistView, DecodeError>(a@),
{
    let mut fields: Vec<(String, JsonValue)> = Vec::new();
    fields.push(("name".to_owned(), JsonValue::Text(a.name.clone())));
    fields.push(("playcount".to_owned(), JsonValue::Text(format_u64(a.playcount as u64))));
    fields.push(("url".to_owned(), JsonValue::Text(a.url.clone())));
    let ghost f = fields@;
    let r = JsonValue::Object(fields);
    proof {
        reveal_strlit("name");
        reveal_strlit("playcount");
        reveal_strlit("url");
        assert(f.len() == 3);
        assert(f[0].0@ == "name"@ && f[1].0@ == "playcount"@ && f[2].0@ == "url"@);
        assert("name"@.len() == 4 && "playcount"@.len() == 9 && "url"@.len() == 3);
        assert(lookup_field(f, "name"@) == Some(f[0].1));
        assert(lookup_field(f, "playcount"@) == lookup_field(f.drop_first(), "playcount"@));
        assert(f.drop_first()[0] == f[1]);
        assert(lookup_field(f.drop_first(), "playcount"@) == Some(f[1].1));
        assert(lookup_field(f, "url"@) == lookup_field(f.drop_first(), "url"@));
        assert(lookup_field(f.drop_first(), "url"@) == lookup_field(
            f.drop_first().drop_first(),
            "url"@,
        ));
        assert(f.drop_first().drop_first()[0] == f[2]);
        assert(lookup_field(f.drop_first().drop_first(), "url"@) == Some(f[2].1));
        lemma_digits_of_all_digits(a.playcount as nat);
        lemma_digits_of_val(a.playcount as nat);
        assert(parse_u32_spec(digits_of(a.playcount as nat)) == Some(a.playcount));
        assert(spec_decode_artist(r) == Ok::<ArtistView, DecodeError>(a@));
    }
    r
}

/// Encodes the artist cache. Decoding the result gives back exactly the
/// encoded artists: the cache read is the identity on what was written.
pub fn encode_artists(artists: &Vec<Artist>) -> (r: JsonValue)
    ensures
        spec_decode_artists_cache(r) == Ok::<Seq<ArtistView>, DecodeError>(artist_views(artists@)),
{
    let mut items: Vec<JsonValue> = Vec::new();
    let n = artists.len();
    let mut i: usize = 0;
    proof {
        assert(artist_views(artists@.subrange(0, 0)) =~= Seq::<ArtistView>::empty());
    }
    while i < n
        invariant
            0 <= i <= n,
            n == artists@.len(),
            spec_decode_artist_seq(items@) == Ok::<Seq<ArtistView>, DecodeError>(
                artist_views(artists@.subrange(0, i as int)),
            ),
        decreases n - i,
    {
        let ghost prev = items@;
        let v = encode_artist(&artists[i]);
        let ghost vv = v;
        items.push(v);
        proof {
            assert(items@.drop_last() =~= prev);
            assert(items@.last() == vv);
            assert(artist_views(artists@.subrange(0, i + 1)) =~= artist_views(
                artists@.subrange(0, i as int),
            ).push(artists@[i as int]@));
        }
        i = i + 1;
    }
    proof {
        assert(artists@.subrange(0, n as int) =~= artists@);
    }
    JsonValue::Array(items)
}

pub open spec fn spec_decode_top_tag(v: JsonValue) -> Result<TopTagView, DecodeError> {
    match spec_get(v, "name"@) {
        None => Err(DecodeError::MissingKey),
        Some(nv) => match nv {
            JsonValue::Text(name) => match spec_get(v, "play_count"@) {
                None => Err(DecodeError::MissingKey),
                Some(cv) => match cv {
                    JsonValue::Number(c) => if c <= u32::MAX {
                        Ok(TopTagView { name: name@, play_count: c as u32 })
                    } else {
                        Err(DecodeError::BadNumber)
                    },
                    _ => Err(DecodeError::WrongType),
                },
            },
            _ => Err(DecodeError::WrongType),
        },
    }
}

/// Decodes one entry of the tag cache.
pub fn decode_top_tag(v: &JsonValue) -> (r: Result<TopTag, DecodeError>)
    ensures
        match r {
            Ok(t) => spec_decode_top_tag(*v) == Ok::<TopTagView, DecodeError>(t@),
            Err(e) => spec_decode_top_tag(*v) == Err::<TopTagView, DecodeError>(e),
        },
{
    let nv = match v.get("name") {
        Some(x) => x,
        None => {
            return Err(DecodeError::MissingKey);
        },
    };
    let name: &String = match nv {
        JsonValue::Text(s) => s,
        _ => {
            return Err(DecodeError::WrongType);
        },
    };
    let cv = match v.get("play_count") {
        Some(x) => x,
        None => {
            return Err(DecodeError::MissingKey);
        },
    };
    let c: u64 = match cv {
        JsonValue::Number(c) => *c,
        _ => {
            return Err(DecodeError::WrongType);
        },
    };
    if c > u32::MAX as u64 {
        return Err(DecodeError::BadNumber);
    }
    Ok(TopTag { name: name.clone(), play_count: c as u32 })
}

pub open spec fn spec_decode_top_tag_seq(items: Seq<JsonValue>) -> Result<
    Seq<TopTagView>,
    DecodeError,
>
    decreases items.len(),
{
    if items.len() == 0 {
        Ok(Seq::empty())
    } else {
        match spec_decode_top_tag_seq(items.drop_last()) {
            Err(e) => Err(e),
            Ok(rest) => match spec_decode_top_tag(items.last()) {
                Err(e) => Err(e),
                Ok(t) => Ok(rest.push(t)),
            },
        }
    }
}

proof fn lemma_decode_top_tag_seq_err(items: Seq<JsonValue>, i: int)
    requires
        0 <= i <= items.len(),
        spec_decode_top_tag_seq(items.subrange(0, i)) is Err,
    ensures
        spec_decode_top_tag_seq(items) == spec_decode_top_tag_seq(items.subrange(0, i)),
    decreases items.len(),
{
    if i < items.len() {
        assert(items.drop_last().subrange(0, i) =~= items.subrange(0, i));
        lemma_decode_top_tag_seq_err(items.drop_last(), i);
    } else {
        assert(items.subrange(0, i) =~= items);
    }
}

/// What decoding the tag cache yields: the file must hold an array of
/// well-formed entries.
pub open spec fn spec_decode_tags_cache(v: JsonValue) -> Result<Seq<TopTagView>, DecodeError> {
    match v {
        JsonValue::Array(items) => spec_decode_top_tag_seq(items@),
        _ => Err(DecodeError::WrongType),
    }
}

/// Decodes a whole tag cache document.
pub fn decode_tags_cache(v: &JsonValue) -> (r: Result<Vec<TopTag>, DecodeError>)
    ensures
        match r {
            Ok(tags) => spec_decode_tags_cache(*v) == Ok::<Seq<TopTagView>, DecodeError>(
                top_tag_views(tags@),
            ),
            Err(e) => spec_decode_tags_cache(*v) == Err::<Seq<TopTagView>, DecodeError>(e),
        },
{
    let items: &Vec<JsonValue> = match v {
        JsonValue::Array(xs) => xs,
        _ => {
            return Err(DecodeError::WrongType);
        },
    };
    let mut out: Vec<TopTag> = Vec::new();
    let n = items.len();
    let mut i: usize = 0;
    proof {
        assert(top_tag_views(out@) =~= Seq::<TopTagView>::empty());
    }
    while i < n
        invariant
            0 <= i <= n,
            n == items@.len(),
            spec_decode_tags_cache(*v) == spec_decode_top_tag_seq(items@),
            spec_decode_top_tag_seq(items@.subrange(0, i as int)) == Ok::<
                Seq<TopTagView>,
                DecodeError,
            >(top_tag_views(out@)),
        decreases n - i,
    {
        proof {
            assert(items@.subrange(0, i + 1).drop_last() =~= items@.subrange(0, i as int));
            assert(items@.subrange(0, i + 1).last() == items@[i as int]);
        }
        match decode_top_tag(&items[i]) {
            Ok(t) => {
                let ghost prev = top_tag_views(out@);
                let ghost tv = t@;
                out.push(t);
                proof {
                    assert(top_tag_views(out@) =~= prev.push(tv));
                }
            },
            Err(e) => {
                proof {
                    lemma_decode_top_tag_seq_err(items@, i + 1);
                }
                return Err(e);
            },
        }
        i = i + 1;
    }
    proof {
        assert(items@.subrange(0, n as int) =~= items@);
    }
    Ok(out)
}

/// Encodes one entry of the tag cache.
pub fn encode_top_tag(t: &TopTag) -> (r: JsonValue)
    ensures
        spec_decode_top_tag(r) == Ok::<TopTagView, DecodeError>(t@),
{
    let mut fields: Vec<(String, JsonValue)> = Vec::new();
    fields.push(("name".to_owned(), JsonValue::Text(t.name.clone())));
    fields.push(("play_count".to_owned(), JsonValue::Number(t.play_count as u64)));
    let ghost f = fields@;
    let r = JsonValue::Object(fields);
    proof {
        reveal_strlit("name");
        reveal_strlit("play_count");
        assert(f.len() == 2);
        assert(f[0].0@ == "name"@ && f[1].0@ == "play_count"@);
        assert("name"@.len() == 4 && "play_count"@.len() == 10);
        assert(lookup_field(f, "name"@) == Some(f[0].1));
        assert(lookup_field(f, "play_count"@) == lookup_field(f.drop_first(), "play_count"@));
        assert(f.drop_first()[0] == f[1]);
        assert(lookup_field(f.drop_first(), "play_count"@) == Some(f[1].1));
        assert(spec_decode_top_tag(r) == Ok::<TopTagView, DecodeError>(t@));
    }
    r
}

/// Encodes the tag cache. Decoding the result gives back exactly the
/// encoded entries: the cache read is the identity on what was written.
pub fn encode_top_tags(tags: &Vec<TopTag>) -> (r: JsonValue)
    ensures
        spec_decode_tags_cache(r) == Ok::<Seq<TopTagView>, DecodeError>(top_tag_views(tags@)),
{
    let mut items: Vec<JsonValue> = Vec::new();
    let n = tags.len();
    let mut i: usize = 0;
    proof {
        assert(top_tag_views(tags@.subrange(0, 0)) =~= Seq::<TopTagView>::empty());
    }
    while i < n
        invariant
            0 <= i <= n,
            n == tags@.len(),
            spec_decode_top_tag_seq(items@) == Ok::<Seq<TopTagView>, DecodeError>(
                top_tag_views(tags@.subrange(0, i as int)),
            ),
        decreases n - i,
    {
        let ghost prev = items@;
        let v = encode_top_tag(&tags[i]);
        let ghost vv = v;
        items.push(v);
        proof {
            assert(items@.drop_last() =~= prev);
            assert(items@.last() == vv);
            assert(top_tag_views(tags@.subrange(0, i + 1)) =~= top_tag_views(
                tags@.subrange(0, i as int),
            ).push(tags@[i as int]@));
        }
        i = i + 1;
    }
    proof {
        assert(tags@.subrange(0, n as int) =~= tags@);
    }
    JsonValue::Array(items)
}

} // verus!
