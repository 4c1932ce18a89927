use loader::{
    cache_file_name, decode, digest, parse_fill, parse_line, parse_timestamp, shard_url, Error,
    Fill, Timestamp,
};

use flate2::write::GzEncoder;
use flate2::Compression;
use std::io::Write;

fn chars(s: &str) -> Vec<char> {
    s.chars().collect()
}

fn gzip(text: &str) -> Vec<u8> {
    let mut enc = GzEncoder::new(Vec::new(), Compression::default());
    enc.write_all(text.as_bytes()).unwrap();
    enc.finish().unwrap()
}

#[test]
fn parse_line_point() {
    let line = chars("2022-04-04 00:53:51.577123 UTC,alice,#FF3881,[12,34]");
    let p = parse_line(&line).unwrap();
    assert_eq!(
        p.timestamp,
        Timestamp { year: 2022, month: 4, day: 4, hour: 0, minute: 53, second: 51, micros: 577123 }
    );
    assert_eq!(p.user_hash, "alice");
    assert_eq!(p.user_id, digest("alice"));
    assert_eq!(p.color, [0xFF, 0x38, 0x81]);
    assert_eq!(p.fill, Fill::One { x: 12, y: 34 });
}

#[test]
fn parse_line_rect() {
    let line = chars("2021-12-31 23:59:59.000001 UTC,bob,#00a1ff,[1,2,300,400]");
    let p = parse_line(&line).unwrap();
    assert_eq!(
        p.timestamp,
        Timestamp { year: 2021, month: 12, day: 31, hour: 23, minute: 59, second: 59, micros: 1 }
    );
    assert_eq!(p.user_hash, "bob");
    assert_eq!(p.user_id, digest("bob"));
    assert_eq!(p.color, [0x00, 0xA1, 0xFF]);
    assert_eq!(p.fill, Fill::Rect { x1: 1, y1: 2, x2: 300, y2: 400 });
}

#[test]
fn parse_line_empty_label() {
    let line = chars("2022-04-04 00:53:51.577123 UTC,,#000000,[0,0]");
    let p = parse_line(&line).unwrap();
    assert_eq!(p.user_hash, "");
    assert_eq!(p.user_id, digest(""));
}

#[test]
fn parse_line_missing_fields() {
    assert!(parse_line(&chars("2022-04-04 00:53:51.577123 UTC,alice,#FF3881")).is_none());
    assert!(parse_line(&chars("2022-04-04 00:53:51.577123 UTC,alice")).is_none());
    assert!(parse_line(&chars("")).is_none());
}

#[test]
fn parse_line_bad_hex() {
    assert!(parse_line(&chars("2022-04-04 00:53:51.577123 UTC,alice,#GG3881,[1,2]")).is_none());
    assert!(parse_line(&chars("2022-04-04 00:53:51.577123 UTC,alice,FF3881,[1,2]")).is_none());
    assert!(parse_line(&chars("2022-04-04 00:53:51.577123 UTC,alice,#FF388,[1,2]")).is_none());
}

#[test]
fn parse_line_bad_timestamp() {
    // Month out of range.
    assert!(parse_line(&chars("2022-13-04 00:53:51.577123 UTC,alice,#FF3881,[1,2]")).is_none());
    // Fraction too short for the fixed-precision pattern.
    assert!(parse_line(&chars("2022-04-04 00:53:51.577 UTC,alice,#FF3881,[1,2]")).is_none());
    // Token shorter than the four-character suffix.
    assert!(parse_line(&chars("UTC,alice,#FF3881,[1,2]")).is_none());
}

#[test]
fn parse_timestamp_leap_year() {
    assert!(parse_timestamp(&chars("2020-02-29 00:00:00.000000")).is_some());
    assert!(parse_timestamp(&chars("2022-02-29 00:00:00.000000")).is_none());
    assert!(parse_timestamp(&chars("2022-04-31 00:00:00.000000")).is_none());
    assert!(parse_timestamp(&chars("2000-02-29 12:30:45.999999")).is_some());
    assert!(parse_timestamp(&chars("1900-02-29 00:00:00.000000")).is_none());
}

#[test]
fn placement_dispatch() {
    assert_eq!(parse_fill(&chars("[1,2]")), Some(Fill::One { x: 1, y: 2 }));
    assert_eq!(
        parse_fill(&chars("[1,2,3,4]")),
        Some(Fill::Rect { x1: 1, y1: 2, x2: 3, y2: 4 })
    );
    assert_eq!(parse_fill(&chars("[1,2,3]")), None);
    assert_eq!(parse_fill(&chars("[1]")), None);
    assert_eq!(parse_fill(&chars("[1,2,3,4,5]")), None);
    assert_eq!(parse_fill(&chars("1,2")), None);
    assert_eq!(parse_fill(&chars("[1,2")), None);
    assert_eq!(parse_fill(&chars("[1,x]")), None);
    assert_eq!(parse_fill(&chars("[]")), None);
}

#[test]
fn decode_round_trip() {
    let text = "timestamp,user,color,coords\n\
                2022-04-04 00:53:51.577123 UTC,alice,#FF3881,[12,34]\n\
                2022-04-04 00:53:52.000000 UTC,bob,#000000,[1,2,3,4]\n";
    let data = gzip(text);
    let pixels = decode(&data).unwrap();
    assert_eq!(pixels.len(), 2);
    assert_eq!(pixels[0].user_hash, "alice");
    assert_eq!(pixels[0].fill, Fill::One { x: 12, y: 34 });
    assert_eq!(pixels[1].user_hash, "bob");
    assert_eq!(pixels[1].fill, Fill::Rect { x1: 1, y1: 2, x2: 3, y2: 4 });
}

#[test]
fn decode_header_only() {
    let pixels = decode(&gzip("timestamp,user,color,coords\n")).unwrap();
    assert_eq!(pixels.len(), 0);
    let pixels = decode(&gzip("")).unwrap();
    assert_eq!(pixels.len(), 0);
}

#[test]
fn decode_bad_line_fails_wholesale() {
    let text = "header\n\
                2022-04-04 00:53:51.577123 UTC,alice,#FF3881,[12,34]\n\
                2022-04-04 00:53:52.000000 UTC,bob,#000000,[1,2,3]\n";
    assert!(matches!(decode(&gzip(text)), Err(Error::Deserialize)));
}

#[test]
fn decode_corrupt_gzip_is_io() {
    let data: Vec<u8> = vec![0x1f, 0x8b, 0x00, 0x01, 0x02, 0x03];
    assert!(matches!(decode(&data), Err(Error::Io)));
    let data: Vec<u8> = b"this is not gzip at all".to_vec();
    assert!(matches!(decode(&data), Err(Error::Io)));
}

#[test]
fn shard_names() {
    assert_eq!(cache_file_name(5), "canvas_05.csv.gzip");
    assert_eq!(cache_file_name(42), "canvas_42.csv.gzip");
    assert_ne!(cache_file_name(5), cache_file_name(6));
    let url = shard_url(7);
    assert_eq!(
        url,
        "https://placedata.reddit.com/data/canvas-history/2022_place_canvas_history-000000000007.csv.gzip"
    );
    assert_eq!(
        shard_url(77),
        "https://placedata.reddit.com/data/canvas-history/2022_place_canvas_history-000000000077.csv.gzip"
    );
}

#[test]
fn digest_deterministic() {
    assert_eq!(digest("alice"), digest("alice"));
    assert_eq!(digest(""), digest(""));
    assert_ne!(digest("alice"), digest("bob"));
}
