use media_fetch::error::ManifestError;
use media_fetch::link::Link;
use media_fetch::manifest::{
    base_path, parse_playlist, parse_playlist_master, parse_playlist_segments, parse_segments,
    parse_variants, read_bandwidth, read_duration, select_variant, Manifest, Playlist, Segment,
    Stream,
};

const PREFIX: &str = "http://example.com/video/";

const MEDIA: &str = "#EXTM3U\n\
#EXT-X-VERSION:3\n\
#EXT-X-TARGETDURATION:10\n\
#EXTINF:9.009,\n\
http://media.example.com/first.ts\n\
#EXTINF:9.009,title\n\
second.ts\n\
#EXTINF:3.003,\n\
sub/third.ts?token=1\n\
#EXT-X-ENDLIST\n";

const MASTER: &str = "#EXTM3U\n\
#EXT-X-STREAM-INF:BANDWIDTH=1280000,RESOLUTION=640x360\n\
low/index.m3u8\n\
#EXT-X-STREAM-INF:PROGRAM-ID=1,BANDWIDTH=2560000,RESOLUTION=1280x720\n\
mid/index.m3u8\n\
#EXT-X-STREAM-INF:BANDWIDTH=2560000,RESOLUTION=1280x720\n\
http://other.example.com/high/index.m3u8\n\
#EXT-X-STREAM-INF:BANDWIDTH=640000,\n\
audio/index.m3u8\n";

fn segment(name: &str, uri: &str, duration: u64) -> Segment {
    Segment { name: name.to_string(), uri: uri.to_string(), duration }
}

fn stream(url: &str, bandwidth: u64) -> Stream {
    Stream { playlist_url: url.to_string(), bandwidth }
}

#[test]
fn media_manifest_lists_its_segments_in_order() {
    let segments = parse_segments(MEDIA, PREFIX).unwrap();
    assert_eq!(
        segments,
        vec![
            segment("first.ts", "http://media.example.com/first.ts", 9_009_000),
            segment("second.ts", "http://example.com/video/second.ts", 9_009_000),
            segment("third.ts", "http://example.com/video/sub/third.ts?token=1", 3_003_000),
        ]
    );
}

#[test]
fn one_segment_for_each_marker_line() {
    for n in [0usize, 1, 2, 7, 40] {
        let mut text = String::from("#EXTM3U\n");
        for i in 0..n {
            text.push_str("# a comment\n#EXTINF:1.5,\n");
            text.push_str(&format!("part{}.ts\n", i));
        }
        let segments = parse_segments(&text, PREFIX).unwrap();
        assert_eq!(segments.len(), n);
        for (i, s) in segments.iter().enumerate() {
            assert_eq!(s.name, format!("part{}.ts", i));
        }
    }
}

#[test]
fn playlist_adds_up_the_durations() {
    let playlist = parse_playlist_segments(MEDIA, PREFIX).unwrap();
    assert_eq!(playlist.segments().len(), 3);
    assert_eq!(playlist.total_duration(), 21_021_000);
    let empty = parse_playlist_segments("#EXTM3U\n", PREFIX).unwrap();
    assert_eq!(empty.segments().len(), 0);
    assert_eq!(empty.total_duration(), 0);
}

#[test]
fn playlist_total_does_not_overflow() {
    let playlist = Playlist::new(vec![
        segment("a", "http://h/a", u64::MAX),
        segment("b", "http://h/b", u64::MAX),
        segment("c", "http://h/c", 2),
    ]);
    assert_eq!(playlist.total_duration(), 2 * (u64::MAX as u128) + 2);
}

#[test]
fn segment_name_is_the_last_path_component() {
    let text = "#EXTINF:1,\nhttp://h.example/a/b/c.ts\n#EXTINF:1,\nhttp://h.example\n#EXTINF:1,\nhttp://h.example/dir/\n#EXTINF:1,\nmailto:someone\n";
    let segments = parse_segments(text, PREFIX).unwrap();
    assert_eq!(segments[0].name, "c.ts");
    assert_eq!(segments[1].name, "");
    assert_eq!(segments[1].uri, "http://h.example/");
    assert_eq!(segments[2].name, "");
    assert_eq!(segments[3].name, "someone");
}

#[test]
fn segment_lines_with_carriage_returns() {
    let text = "#EXTM3U\r\n#EXTINF:4,\r\none.ts\r\n";
    let segments = parse_segments(text, PREFIX).unwrap();
    assert_eq!(segments, vec![segment("one.ts", "http://example.com/video/one.ts", 4_000_000)]);
}

#[test]
fn segment_without_a_duration_is_an_error() {
    assert_eq!(parse_segments("#EXTINF\nx.ts\n", PREFIX), Err(ManifestError::MalformedDuration));
    assert_eq!(parse_segments("#EXTINF:9.0\nx.ts\n", PREFIX), Err(ManifestError::MalformedDuration));
    assert_eq!(parse_segments("#EXTINF,9.0:\nx.ts\n", PREFIX), Err(ManifestError::MalformedDuration));
    assert_eq!(parse_segments("#EXTINF:,\nx.ts\n", PREFIX), Err(ManifestError::MalformedDuration));
    assert_eq!(parse_segments("#EXTINF:abc,\nx.ts\n", PREFIX), Err(ManifestError::MalformedDuration));
}

#[test]
fn segment_without_an_address_is_an_error() {
    assert_eq!(parse_segments("#EXTM3U\n#EXTINF:9.0,", PREFIX), Err(ManifestError::MissingUri));
    assert_eq!(parse_segments("#EXTINF:9.0,\n", PREFIX), Err(ManifestError::MissingUri));
}

#[test]
fn segment_with_an_address_that_cannot_be_resolved() {
    assert_eq!(
        parse_segments("#EXTINF:9.0,\nx.ts\n", "not a base"),
        Err(ManifestError::UnresolvedUri)
    );
}

#[test]
fn the_first_error_is_reported() {
    let text = "#EXTINF:1,\nok.ts\n#EXTINF:bad,\nx.ts\n#EXTINF:2,";
    assert_eq!(parse_segments(text, PREFIX), Err(ManifestError::MalformedDuration));
    let text = "#EXTINF:1,\nok.ts\n#EXTINF:2,";
    assert_eq!(parse_segments(text, PREFIX), Err(ManifestError::MissingUri));
}

#[test]
fn master_manifest_lists_its_variants_in_order() {
    let variants = parse_variants(MASTER, PREFIX).unwrap();
    assert_eq!(
        variants,
        vec![
            stream("http://example.com/video/low/index.m3u8", 1_280_000),
            stream("http://example.com/video/mid/index.m3u8", 2_560_000),
            stream("http://other.example.com/high/index.m3u8", 2_560_000),
            stream("http://example.com/video/audio/index.m3u8", 640_000),
        ]
    );
}

#[test]
fn selection_takes_the_most_bandwidth_and_the_first_of_equals() {
    let chosen = parse_playlist_master(MASTER, PREFIX).unwrap();
    assert_eq!(chosen, stream("http://example.com/video/mid/index.m3u8", 2_560_000));
    let variants = vec![stream("a", 5), stream("b", 9), stream("c", 9), stream("d", 1)];
    assert_eq!(select_variant(&variants), Some(1));
    assert_eq!(select_variant(&vec![stream("a", 0), stream("b", 0)]), Some(0));
    assert_eq!(select_variant(&vec![stream("a", 3)]), Some(0));
    assert_eq!(select_variant(&vec![stream("a", 1), stream("b", 2), stream("c", 3)]), Some(2));
    assert_eq!(select_variant(&Vec::new()), None);
}

#[test]
fn bandwidth_is_read_in_full() {
    let text = "#EXT-X-STREAM-INF:BANDWIDTH=900,\na.m3u8\n#EXT-X-STREAM-INF:BANDWIDTH=1000,\nb.m3u8\n";
    let chosen = parse_playlist_master(text, PREFIX).unwrap();
    assert_eq!(chosen, stream("http://example.com/video/b.m3u8", 1000));
}

#[test]
fn malformed_bandwidth_is_an_error() {
    for line in [
        "#EXT-X-STREAM-INF:RESOLUTION=1x1,",
        "#EXT-X-STREAM-INF:BANDWIDTH=1280000",
        "#EXT-X-STREAM-INF:BANDWIDTH=,",
        "#EXT-X-STREAM-INF:BANDWIDTH=12x,",
        "#EXT-X-STREAM-INF:BANDWIDTH=-5,",
        "#EXT-X-STREAM-INF:BANDWIDTH=18446744073709551616,",
        "#EXT-X-STREAM-INF:A=1,BANDWIDTH=7",
    ] {
        let text = format!("#EXTM3U\n{}\nv.m3u8\n", line);
        assert_eq!(parse_playlist_master(&text, PREFIX), Err(ManifestError::MalformedBandwidth));
    }
}

#[test]
fn variant_without_an_address_is_an_error() {
    assert_eq!(
        parse_playlist_master("#EXT-X-STREAM-INF:BANDWIDTH=1,", PREFIX),
        Err(ManifestError::MissingUri)
    );
    assert_eq!(
        parse_playlist_master("#EXT-X-STREAM-INF:BANDWIDTH=1,\nv.m3u8", "nowhere"),
        Err(ManifestError::UnresolvedUri)
    );
}

#[test]
fn master_without_variants_is_an_error() {
    assert_eq!(parse_playlist_master("#EXTM3U\n", PREFIX), Err(ManifestError::EmptyVariantSet));
    assert_eq!(parse_playlist_master("", PREFIX), Err(ManifestError::EmptyVariantSet));
    let inline = "#EXTM3U\n# see #EXT-X-STREAM-INF\n";
    assert_eq!(
        parse_playlist(inline, "http://example.com/video/index.m3u8").map(|_| ()),
        Err(ManifestError::EmptyVariantSet)
    );
}

#[test]
fn base_path_ends_at_the_last_slash() {
    assert_eq!(
        base_path("http://example.com/video/index.m3u8"),
        Ok("http://example.com/video/".to_string())
    );
    assert_eq!(base_path("http://example.com"), Ok("http://".to_string()));
    assert_eq!(base_path("index.m3u8"), Err(ManifestError::NoBasePath));
}

#[test]
fn a_document_with_variants_is_a_master() {
    match parse_playlist(MASTER, "http://example.com/video/index.m3u8") {
        Ok(Manifest::Master(s)) => {
            assert_eq!(s, stream("http://example.com/video/mid/index.m3u8", 2_560_000))
        }
        other => panic!("{:?}", other),
    }
}

#[test]
fn a_document_without_variants_is_a_media_manifest() {
    match parse_playlist(MEDIA, "http://example.com/video/index.m3u8") {
        Ok(Manifest::Media(p)) => {
            assert_eq!(p.segments().len(), 3);
            assert_eq!(p.segments()[1].uri, "http://example.com/video/second.ts");
            assert_eq!(p.total_duration(), 21_021_000);
        }
        other => panic!("{:?}", other),
    }
    assert_eq!(parse_playlist(MEDIA, "index.m3u8").map(|_| ()), Err(ManifestError::NoBasePath));
    assert_eq!(
        parse_playlist("#EXTINF:x,\n", "http://example.com/index.m3u8").map(|_| ()),
        Err(ManifestError::MalformedDuration)
    );
}

#[test]
fn duration_field_of_a_segment_line() {
    let line = |s: &str| s.chars().collect::<Vec<char>>();
    assert_eq!(read_duration(&line("#EXTINF:9.009,")), Some(9_009_000));
    assert_eq!(read_duration(&line("#EXTINF:12,a title, with commas: and colons")), Some(12_000_000));
    assert_eq!(read_duration(&line("#EXTINF:12")), None);
    assert_eq!(read_duration(&line("#EXTINF,12:")), None);
    assert_eq!(read_duration(&line("#EXTINF: 12,")), None);
    assert_eq!(read_duration(&line("")), None);
}

#[test]
fn bandwidth_field_of_a_variant_line() {
    let line = |s: &str| s.chars().collect::<Vec<char>>();
    assert_eq!(read_bandwidth(&line("#EXT-X-STREAM-INF:BANDWIDTH=1280000,CODECS=\"a,b\"")), Some(1_280_000));
    assert_eq!(read_bandwidth(&line("#EXT-X-STREAM-INF:X=1,BANDWIDTH=5,")), Some(5));
    assert_eq!(read_bandwidth(&line("#EXT-X-STREAM-INF:AVERAGE-BANDWIDTH=7,BANDWIDTH=9,")), Some(7));
    assert_eq!(read_bandwidth(&line("BANDWIDTH=5")), None);
    assert_eq!(read_bandwidth(&line("BANDWIDTH=,")), None);
    assert_eq!(read_bandwidth(&line("bandwidth=5,")), None);
}

#[test]
fn segments_and_streams_from_links() {
    let link = Link { href: "http://h/a/b.ts?x=1".to_string(), path: "/a/b.ts".to_string() };
    assert_eq!(
        Segment::from_link(link.clone(), 7),
        segment("b.ts", "http://h/a/b.ts?x=1", 7)
    );
    let bare = Link { href: "mailto:someone".to_string(), path: "someone".to_string() };
    assert_eq!(Segment::from_link(bare, 0), segment("someone", "mailto:someone", 0));
    assert_eq!(Stream::from_link(link, 9), stream("http://h/a/b.ts?x=1", 9));
}
