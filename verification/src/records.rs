//! The pipeline's records: artists as the paginated listing reports them,
//! per-artist tags, and the aggregated tag totals, together with their
//! spec-level views and the decode error taxonomy.

use vstd::prelude::*;

verus! {

/// One artist from the listing. `playcount` travels as a decimal string on
/// the wire and in the artist cache; decoded here it is a plain integer.
#[derive(Debug, Clone)]
pub struct Artist {
    pub name: String,
    pub playcount: u32,
    pub url: String,
}

pub struct ArtistView {
    pub name: Seq<char>,
    pub playcount: u32,
    pub url: Seq<char>,
}

impl View for Artist {
    type V = ArtistView;

    open spec fn view(&self) -> ArtistView {
        ArtistView { name: self.name@, playcount: self.playcount, url: self.url@ }
    }
}

/// One tag of one artist's tag response; consumed by the aggregation and
/// never persisted.
#[derive(Debug, Clone)]
pub struct Tag {
    pub name: String,
    pub count: u32,
    pub url: String,
}

pub struct TagView {
    pub name: Seq<char>,
    pub count: u32,
    pub url: Seq<char>,
}

impl View for Tag {
    type V = TagView;

    open spec fn view(&self) -> TagView {
        TagView { name: self.name@, count: self.count, url: self.url@ }
    }
}

/// One aggregated entry: a tag name with the summed play counts of the
/// artists whose responses carried that name.
#[derive(Debug, Clone)]
pub struct TopTag {
    pub name: String,
    pub play_count: u32,
}

pub struct TopTagView {
    pub name: Seq<char>,
    pub play_count: u32,
}

impl View for TopTag {
    type V = TopTagView;

    open spec fn view(&self) -> TopTagView {
        TopTagView { name: self.name@, play_count: self.play_count }
    }
}

/// Why a document was rejected: a required key is absent, a value has the
/// wrong shape, or a numeric field does not parse into its integer type.
#[derive(Clone, Copy, PartialEq, Eq, Structural, Debug)]
pub enum DecodeError {
    MissingKey,
    WrongType,
    BadNumber,
}

pub open spec fn artist_views(s: Seq<Artist>) -> Seq<ArtistView> {
    s.map_values(|a: Artist| a@)
}

pub open spec fn tag_views(s: Seq<Tag>) -> Seq<TagView> {
    s.map_values(|t: Tag| t@)
}

pub open spec fn top_tag_views(s: Seq<TopTag>) -> Seq<TopTagView> {
    s.map_values(|t: TopTag| t@)
}

} // verus!
