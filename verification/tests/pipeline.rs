use toptags::aggregate::TagAggregator;
use toptags::decode::decode_envelope;
use toptags::json::JsonValue;
use toptags::paginate::{PageStep, Paginator};
use toptags::records::{Artist, DecodeError, Tag};

fn text(s: &str) -> JsonValue {
    JsonValue::Text(s.to_string())
}

fn artist_obj(name: &str, playcount: &str, url: &str) -> JsonValue {
    JsonValue::Object(vec![
        ("name".to_string(), text(name)),
        ("playcount".to_string(), text(playcount)),
        ("url".to_string(), text(url)),
    ])
}

fn envelope(page: &str, total_pages: &str, artists: Vec<JsonValue>) -> JsonValue {
    JsonValue::Object(vec![(
        "topartists".to_string(),
        JsonValue::Object(vec![
            (
                "@attr".to_string(),
                JsonValue::Object(vec![
                    ("page".to_string(), text(page)),
                    ("totalPages".to_string(), text(total_pages)),
                ]),
            ),
            ("artist".to_string(), JsonValue::Array(artists)),
        ]),
    )])
}

fn tag(name: &str, count: u32) -> Tag {
    Tag { name: name.to_string(), count, url: format!("https://example.net/tag/{}", name) }
}

#[test]
fn envelope_decodes_counters_and_items() {
    let doc = envelope("1", "3", vec![artist_obj("X", "10", "https://example.net/x")]);
    let env = decode_envelope(&doc).unwrap();
    assert_eq!(env.page, 1);
    assert_eq!(env.total_pages, 3);
    assert_eq!(env.artists.len(), 1);
    assert_eq!(env.artists[0].name, "X");
    assert_eq!(env.artists[0].playcount, 10);
    assert_eq!(env.artists[0].url, "https://example.net/x");
}

#[test]
fn envelope_missing_total_pages_is_rejected() {
    let doc = JsonValue::Object(vec![(
        "topartists".to_string(),
        JsonValue::Object(vec![
            (
                "@attr".to_string(),
                JsonValue::Object(vec![("page".to_string(), text("1"))]),
            ),
            ("artist".to_string(), JsonValue::Array(vec![])),
        ]),
    )]);
    assert_eq!(decode_envelope(&doc).unwrap_err(), DecodeError::MissingKey);
}

#[test]
fn envelope_page_as_number_not_string_is_rejected() {
    let doc = JsonValue::Object(vec![(
        "topartists".to_string(),
        JsonValue::Object(vec![
            (
                "@attr".to_string(),
                JsonValue::Object(vec![
                    ("page".to_string(), JsonValue::Number(1)),
                    ("totalPages".to_string(), text("1")),
                ]),
            ),
            ("artist".to_string(), JsonValue::Array(vec![])),
        ]),
    )]);
    assert_eq!(decode_envelope(&doc).unwrap_err(), DecodeError::WrongType);
}

#[test]
fn envelope_bad_playcount_is_rejected() {
    let doc = envelope("1", "1", vec![artist_obj("X", "10x", "u")]);
    assert_eq!(decode_envelope(&doc).unwrap_err(), DecodeError::BadNumber);
}

#[test]
fn paginator_walks_every_page_in_order() {
    let mut p = Paginator::new(1);
    assert_eq!(p.current_page(), 1);
    let step = p
        .on_page(&envelope("1", "2", vec![artist_obj("A", "3", "ua"), artist_obj("B", "2", "ub")]))
        .unwrap();
    assert_eq!(step, PageStep::Continue { next_page: 2 });
    assert!(!p.is_done());
    assert_eq!(p.current_page(), 2);
    let step = p.on_page(&envelope("2", "2", vec![artist_obj("C", "1", "uc")])).unwrap();
    assert_eq!(step, PageStep::Done);
    assert!(p.is_done());
    let artists: Vec<Artist> = p.into_artists();
    let names: Vec<&str> = artists.iter().map(|a| a.name.as_str()).collect();
    assert_eq!(names, vec!["A", "B", "C"]);
    assert_eq!(artists[0].playcount, 3);
}

#[test]
fn paginator_single_page_stops_at_once() {
    let mut p = Paginator::new(1);
    let step = p.on_page(&envelope("1", "1", vec![artist_obj("A", "3", "ua")])).unwrap();
    assert_eq!(step, PageStep::Done);
    assert!(p.is_done());
    assert_eq!(p.into_artists().len(), 1);
}

#[test]
fn paginator_malformed_page_aborts() {
    let mut p = Paginator::new(1);
    p.on_page(&envelope("1", "2", vec![artist_obj("A", "3", "ua")])).unwrap();
    let bad = JsonValue::Object(vec![("topartists".to_string(), JsonValue::Null)]);
    assert_eq!(p.on_page(&bad).unwrap_err(), DecodeError::MissingKey);
    assert!(!p.is_done());
    assert_eq!(p.current_page(), 2);
}

#[test]
fn aggregate_example_sorted_ascending() {
    let mut agg = TagAggregator::new();
    assert!(agg.record_success(10, &vec![tag("rock", 100)]));
    assert!(agg.record_success(5, &vec![tag("rock", 80), tag("pop", 60)]));
    let out = agg.into_sorted();
    let pairs: Vec<(&str, u32)> = out.iter().map(|t| (t.name.as_str(), t.play_count)).collect();
    assert_eq!(pairs, vec![("pop", 5), ("rock", 15)]);
}

#[test]
fn aggregate_failure_skips_artist_and_run_completes() {
    let mut agg = TagAggregator::new();
    agg.record_failure(10);
    assert!(agg.record_success(5, &vec![tag("rock", 80), tag("pop", 60)]));
    let out = agg.into_sorted();
    let pairs: Vec<(&str, u32)> = out.iter().map(|t| (t.name.as_str(), t.play_count)).collect();
    assert_eq!(pairs, vec![("pop", 5), ("rock", 5)]);
}

#[test]
fn aggregate_duplicate_tag_counts_twice() {
    let mut agg = TagAggregator::new();
    assert!(agg.record_success(3, &vec![tag("rock", 1), tag("rock", 2)]));
    let out = agg.into_sorted();
    assert_eq!(out.len(), 1);
    assert_eq!(out[0].name, "rock");
    assert_eq!(out[0].play_count, 6);
}

#[test]
fn aggregate_overflow_is_refused_and_state_kept() {
    let mut agg = TagAggregator::new();
    assert!(agg.record_success(u32::MAX, &vec![tag("rock", 1)]));
    assert!(!agg.record_success(1, &vec![tag("rock", 1)]));
    assert!(agg.record_success(7, &vec![tag("pop", 1)]));
    let out = agg.into_sorted();
    let pairs: Vec<(&str, u32)> = out.iter().map(|t| (t.name.as_str(), t.play_count)).collect();
    assert_eq!(pairs, vec![("pop", 7), ("rock", u32::MAX)]);
}

#[test]
fn aggregate_ties_keep_both_entries() {
    let mut agg = TagAggregator::new();
    assert!(agg.record_success(4, &vec![tag("rock", 1), tag("pop", 2)]));
    let out = agg.into_sorted();
    assert_eq!(out.len(), 2);
    assert!(out.iter().any(|t| t.name == "rock" && t.play_count == 4));
    assert!(out.iter().any(|t| t.name == "pop" && t.play_count == 4));
    assert!(out[0].play_count <= out[1].play_count);
}

#[test]
fn aggregate_empty_run_is_empty() {
    let agg = TagAggregator::new();
    assert!(agg.into_sorted().is_empty());
}
