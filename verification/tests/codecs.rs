use toptags::cache::{
    decode_artists_cache, decode_tags_cache, encode_artists, encode_top_tags,
};
use toptags::decode::decode_tags_doc;
use toptags::json::JsonValue;
use toptags::numstr::{format_u64, parse_u32, parse_u64};
use toptags::records::{Artist, DecodeError, TopTag};
use toptags::url::{artist_page_url, status_is_success, tags_url};

fn text(s: &str) -> JsonValue {
    JsonValue::Text(s.to_string())
}

#[test]
fn parse_u64_reads_digits_only() {
    assert_eq!(parse_u64("0"), Some(0));
    assert_eq!(parse_u64("12345"), Some(12345));
    assert_eq!(parse_u64("18446744073709551615"), Some(u64::MAX));
    assert_eq!(parse_u64("18446744073709551616"), None);
    assert_eq!(parse_u64(""), None);
    assert_eq!(parse_u64("12a"), None);
    assert_eq!(parse_u64("+5"), None);
    assert_eq!(parse_u64("-5"), None);
    assert_eq!(parse_u64(" 5"), None);
}

#[test]
fn parse_u32_enforces_its_range() {
    assert_eq!(parse_u32("4294967295"), Some(u32::MAX));
    assert_eq!(parse_u32("4294967296"), None);
    assert_eq!(parse_u32("007"), Some(7));
}

#[test]
fn format_u64_renders_decimal() {
    assert_eq!(format_u64(0), "0");
    assert_eq!(format_u64(7), "7");
    assert_eq!(format_u64(908), "908");
    assert_eq!(format_u64(u64::MAX), "18446744073709551615");
}

#[test]
fn format_then_parse_round_trips() {
    for n in [0u64, 1, 9, 10, 99, 100, 4294967295, u64::MAX] {
        assert_eq!(parse_u64(&format_u64(n)), Some(n));
    }
}

#[test]
fn json_get_returns_first_match() {
    let doc = JsonValue::Object(vec![
        ("a".to_string(), JsonValue::Number(1)),
        ("b".to_string(), JsonValue::Number(2)),
        ("a".to_string(), JsonValue::Number(3)),
    ]);
    match doc.get("a") {
        Some(JsonValue::Number(n)) => assert_eq!(*n, 1),
        _ => panic!("expected the first a"),
    }
    assert!(doc.get("c").is_none());
    assert!(JsonValue::Null.get("a").is_none());
}

#[test]
fn tags_doc_decodes_names_and_counts() {
    let doc = JsonValue::Object(vec![(
        "toptags".to_string(),
        JsonValue::Object(vec![(
            "tag".to_string(),
            JsonValue::Array(vec![JsonValue::Object(vec![
                ("name".to_string(), text("rock")),
                ("count".to_string(), JsonValue::Number(100)),
                ("url".to_string(), text("https://example.net/tag/rock")),
            ])]),
        )]),
    )]);
    let tags = decode_tags_doc(&doc).unwrap();
    assert_eq!(tags.len(), 1);
    assert_eq!(tags[0].name, "rock");
    assert_eq!(tags[0].count, 100);
}

#[test]
fn tags_doc_missing_tag_key_is_rejected() {
    let doc = JsonValue::Object(vec![("toptags".to_string(), JsonValue::Object(vec![]))]);
    assert_eq!(decode_tags_doc(&doc).unwrap_err(), DecodeError::MissingKey);
}

#[test]
fn tags_doc_count_out_of_range_is_rejected() {
    let doc = JsonValue::Object(vec![(
        "toptags".to_string(),
        JsonValue::Object(vec![(
            "tag".to_string(),
            JsonValue::Array(vec![JsonValue::Object(vec![
                ("name".to_string(), text("rock")),
                ("count".to_string(), JsonValue::Number(4294967296)),
                ("url".to_string(), text("u")),
            ])]),
        )]),
    )]);
    assert_eq!(decode_tags_doc(&doc).unwrap_err(), DecodeError::BadNumber);
}

#[test]
fn artist_cache_round_trips_exactly() {
    let artists = vec![
        Artist { name: "X".to_string(), playcount: 10, url: "https://example.net/x".to_string() },
        Artist { name: "Y".to_string(), playcount: 5, url: "https://example.net/y".to_string() },
    ];
    let doc = encode_artists(&artists);
    let back = decode_artists_cache(&doc).unwrap();
    assert_eq!(back.len(), 2);
    for (a, b) in artists.iter().zip(back.iter()) {
        assert_eq!(a.name, b.name);
        assert_eq!(a.playcount, b.playcount);
        assert_eq!(a.url, b.url);
    }
}

#[test]
fn artist_cache_stores_playcount_as_string() {
    let artists =
        vec![Artist { name: "X".to_string(), playcount: 10, url: "u".to_string() }];
    let doc = encode_artists(&artists);
    match &doc {
        JsonValue::Array(items) => match items[0].get("playcount") {
            Some(JsonValue::Text(s)) => assert_eq!(s, "10"),
            _ => panic!("playcount must be a decimal string"),
        },
        _ => panic!("cache must be an array"),
    }
}

#[test]
fn tag_cache_round_trips_exactly() {
    let tags = vec![
        TopTag { name: "pop".to_string(), play_count: 5 },
        TopTag { name: "rock".to_string(), play_count: 15 },
    ];
    let doc = encode_top_tags(&tags);
    let back = decode_tags_cache(&doc).unwrap();
    assert_eq!(back.len(), 2);
    for (a, b) in tags.iter().zip(back.iter()) {
        assert_eq!(a.name, b.name);
        assert_eq!(a.play_count, b.play_count);
    }
}

#[test]
fn malformed_cache_is_a_fatal_decode_error() {
    assert_eq!(decode_artists_cache(&JsonValue::Null).unwrap_err(), DecodeError::WrongType);
    assert_eq!(decode_tags_cache(&text("nope")).unwrap_err(), DecodeError::WrongType);
    let doc = JsonValue::Array(vec![JsonValue::Object(vec![(
        "name".to_string(),
        text("rock"),
    )])]);
    assert_eq!(decode_tags_cache(&doc).unwrap_err(), DecodeError::MissingKey);
}

#[test]
fn artist_page_url_is_exact() {
    assert_eq!(
        artist_page_url("alice", "k123", 2),
        "https://ws.audioscrobbler.com/2.0/?method=user.gettopartists&user=alice&api_key=k123&page=2&format=json"
    );
}

#[test]
fn tags_url_percent_encodes_the_artist() {
    let url = tags_url("Guns N' Roses", "k");
    assert_eq!(
        url,
        "https://ws.audioscrobbler.com/2.0/?method=artist.gettoptags&artist=Guns%20N%27%20Roses&api_key=k&period=12month&format=json"
    );
}

#[test]
fn status_success_is_the_2xx_class() {
    assert!(status_is_success(200));
    assert!(status_is_success(204));
    assert!(status_is_success(299));
    assert!(!status_is_success(199));
    assert!(!status_is_success(300));
    assert!(!status_is_success(404));
    assert!(!status_is_success(500));
}
