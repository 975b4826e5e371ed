use media_fetch::error::{JobError, ManifestError};
use media_fetch::job::{scratch_dir, slot_path, DownloadJob};
use media_fetch::manifest::{parse_playlist_segments, Playlist, Segment};
use media_fetch::options::Options;
use media_fetch::video::{SegmentedVideo, Video, VideoSegment};

fn options(parallel: usize, retries: usize, block: u64) -> Options {
    Options { max_parallel_downloads: parallel, max_download_retries: retries, block_size: block }
}

fn plan(length: u64, chunk: u64) -> Result<Vec<(u64, u64, u64)>, JobError> {
    let video = Video::new("http://example.com/v.mp4".to_string(), "out.mp4".to_string(), length);
    SegmentedVideo::new(video, chunk, "out.mp4_segments".to_string())
        .map(|sv| sv.segments().iter().map(|s| (s.id, s.start, s.end)).collect())
}

#[test]
fn ranges_of_a_file_that_is_no_multiple_of_the_chunk() {
    assert_eq!(plan(10, 4), Ok(vec![(0, 0, 3), (1, 4, 7), (2, 8, 9)]));
    assert_eq!(plan(9, 4), Ok(vec![(0, 0, 3), (1, 4, 7), (2, 8, 8)]));
}

#[test]
fn ranges_of_a_file_that_is_a_multiple_of_the_chunk() {
    assert_eq!(plan(8, 4), Ok(vec![(0, 0, 3), (1, 4, 7)]));
    assert_eq!(plan(3, 1), Ok(vec![(0, 0, 0), (1, 1, 1), (2, 2, 2)]));
}

#[test]
fn a_file_no_longer_than_the_chunk_is_one_range() {
    assert_eq!(plan(4, 4), Ok(vec![(0, 0, 3)]));
    assert_eq!(plan(1, 4), Ok(vec![(0, 0, 0)]));
    assert_eq!(plan(1, u64::MAX), Ok(vec![(0, 0, 0)]));
    assert_eq!(plan(u64::MAX, u64::MAX), Ok(vec![(0, 0, u64::MAX - 1)]));
}

#[test]
fn ranges_near_the_largest_length() {
    let half = 1u64 << 63;
    assert_eq!(plan(u64::MAX, half), Ok(vec![(0, 0, half - 1), (1, half, u64::MAX - 1)]));
    assert_eq!(
        plan(u64::MAX, u64::MAX - 1),
        Ok(vec![(0, 0, u64::MAX - 2), (1, u64::MAX - 1, u64::MAX - 1)])
    );
}

#[test]
fn ranges_partition_the_file() {
    for length in 1u64..60 {
        for chunk in 1u64..20 {
            let ranges = plan(length, chunk).unwrap();
            assert_eq!(ranges.len() as u64, (length + chunk - 1) / chunk);
            assert_eq!(ranges[0].1, 0);
            assert_eq!(ranges[ranges.len() - 1].2, length - 1);
            for (i, r) in ranges.iter().enumerate() {
                assert_eq!(r.0, i as u64);
                assert!(r.1 <= r.2);
                let size = r.2 - r.1 + 1;
                if i + 1 < ranges.len() {
                    assert_eq!(size, chunk);
                    assert_eq!(ranges[i + 1].1, r.2 + 1);
                } else {
                    assert!(size <= chunk);
                }
            }
        }
    }
}

#[test]
fn a_file_of_length_zero_has_no_plan() {
    assert_eq!(plan(0, 4), Err(JobError::EmptyPlan));
    assert_eq!(plan(0, 0), Err(JobError::EmptyPlan));
}

#[test]
fn a_chunk_of_zero_bytes_is_refused() {
    assert_eq!(plan(10, 0), Err(JobError::InvalidOptions));
}

#[test]
fn segmented_video_keeps_what_it_was_given() {
    let video = Video::new("http://example.com/v.mp4".to_string(), "out.mp4".to_string(), 10);
    let sv = SegmentedVideo::new(video, 4, "scratch".to_string()).unwrap();
    assert_eq!(sv.total_segments(), 3);
    assert_eq!(sv.folder(), "scratch");
    assert_eq!(sv.video().url, "http://example.com/v.mp4");
    assert_eq!(sv.video().title, "out.mp4");
    assert_eq!(sv.video().size, 10);
}

#[test]
fn size_and_header_of_a_range() {
    let s = VideoSegment::new(3, 12, 15);
    assert_eq!((s.id, s.start, s.end), (3, 12, 15));
    assert_eq!(s.size(), 4);
    assert_eq!(s.range_header(), "bytes=12-15");
    assert_eq!(VideoSegment::new(0, 0, 0).size(), 1);
    assert_eq!(VideoSegment::new(0, 0, 0).range_header(), "bytes=0-0");
    assert_eq!(VideoSegment::new(0, 0, u64::MAX - 1).size(), u64::MAX);
    assert_eq!(
        VideoSegment::new(1, 1 << 63, u64::MAX - 1).range_header(),
        "bytes=9223372036854775808-18446744073709551614"
    );
}

#[test]
fn scratch_names() {
    assert_eq!(scratch_dir("out.mp4"), "out.mp4_segments");
    assert_eq!(scratch_dir("dir/out"), "dir/out_segments");
    assert_eq!(scratch_dir(""), "_segments");
    assert_eq!(slot_path("out.mp4_segments", 0), "out.mp4_segments/0.ts");
    assert_eq!(slot_path("d", 12), "d/12.ts");
    assert_eq!(slot_path("d", u64::MAX), "d/18446744073709551615.ts");
}

#[test]
fn tasks_of_a_playlist() {
    let text = "#EXTINF:9.009,\nhttp://media.example.com/first.ts\n#EXTINF:3,\nsub/second.ts\n";
    let playlist = parse_playlist_segments(text, "http://example.com/video/").unwrap();
    let job = DownloadJob::from_playlist(&playlist, "out_segments", &options(4, 3, 0)).unwrap();
    assert_eq!(job.task_count(), 2);
    let first = job.task(0).unwrap();
    assert_eq!(first.id, 0);
    assert_eq!(first.source_uri, "http://media.example.com/first.ts");
    assert_eq!(first.byte_range, None);
    assert_eq!(first.destination, "out_segments/0.ts");
    assert_eq!(first.expected_duration, Some(9_009_000));
    assert_eq!(first.label, "first.ts");
    let second = job.task(1).unwrap();
    assert_eq!(second.id, 1);
    assert_eq!(second.source_uri, "http://example.com/video/sub/second.ts");
    assert_eq!(second.destination, "out_segments/1.ts");
    assert_eq!(second.expected_duration, Some(3_000_000));
    assert_eq!(second.label, "second.ts");
    assert!(job.task(2).is_none());
    assert_eq!(job.total_units(), 12_009_000);
    assert_eq!(job.completed_units(), 0);
    assert_eq!(job.completed_count(), 0);
    assert_eq!(job.in_flight(), 0);
    assert_eq!(job.wave(), 0);
}

#[test]
fn task_numbers_are_dense() {
    let mut text = String::new();
    for i in 0..25 {
        text.push_str(&format!("#EXTINF:1,\ns{}.ts\n", i));
    }
    let playlist = parse_playlist_segments(&text, "http://example.com/").unwrap();
    let job = DownloadJob::from_playlist(&playlist, "x", &options(1, 1, 0)).unwrap();
    assert_eq!(job.task_count(), 25);
    for i in 0..25u64 {
        assert_eq!(job.task(i).unwrap().id, i);
        assert_eq!(job.task(i).unwrap().label, format!("s{}.ts", i));
    }
}

#[test]
fn tasks_of_a_file() {
    let video = Video::new("http://example.com/v.mp4".to_string(), "out.mp4".to_string(), 10);
    let sv = SegmentedVideo::new(video, 4, "out.mp4_segments".to_string()).unwrap();
    let job = DownloadJob::from_video(&sv, &options(2, 3, 4)).unwrap();
    assert_eq!(job.task_count(), 3);
    for (i, range) in [(0u64, 3u64), (4, 7), (8, 9)].iter().enumerate() {
        let task = job.task(i as u64).unwrap();
        assert_eq!(task.id, i as u64);
        assert_eq!(task.source_uri, "http://example.com/v.mp4");
        assert_eq!(task.byte_range, Some(*range));
        assert_eq!(task.destination, format!("out.mp4_segments/{}.ts", i));
        assert_eq!(task.expected_duration, None);
        assert_eq!(task.label, format!("{}", i));
    }
    assert_eq!(job.total_units(), 10);
}

#[test]
fn a_playlist_without_segments_has_no_plan() {
    let playlist = Playlist::new(Vec::new());
    let r = DownloadJob::from_playlist(&playlist, "x", &options(4, 3, 0));
    assert_eq!(r.err(), Some(JobError::EmptyPlan));
    let r = DownloadJob::from_playlist(&playlist, "x", &options(0, 3, 0));
    assert_eq!(r.err(), Some(JobError::EmptyPlan));
}

#[test]
fn a_limit_of_zero_fetches_is_refused() {
    let playlist = Playlist::new(vec![Segment {
        name: "a".to_string(),
        uri: "http://h/a".to_string(),
        duration: 1,
    }]);
    let r = DownloadJob::from_playlist(&playlist, "x", &options(0, 3, 0));
    assert_eq!(r.err(), Some(JobError::InvalidOptions));
    let video = Video::new("http://example.com/v.mp4".to_string(), "out.mp4".to_string(), 10);
    let sv = SegmentedVideo::new(video, 4, "s".to_string()).unwrap();
    assert_eq!(DownloadJob::from_video(&sv, &options(0, 3, 4)).err(), Some(JobError::InvalidOptions));
}

#[test]
fn a_job_from_the_text_of_a_manifest() {
    let text = "#EXTM3U\n#EXTINF:2.5,\na.ts\n#EXTINF:4,\nb.ts\n";
    let job =
        DownloadJob::from_manifest(text, "http://example.com/v/", "out_segments", &options(2, 3, 0))
            .unwrap();
    assert_eq!(job.task_count(), 2);
    assert_eq!(job.task(1).unwrap().source_uri, "http://example.com/v/b.ts");
    assert_eq!(job.task(1).unwrap().destination, "out_segments/1.ts");
    assert_eq!(job.total_units(), 6_500_000);
}

#[test]
fn a_manifest_that_cannot_be_read_gives_no_job() {
    let r = DownloadJob::from_manifest("#EXTINF:x,\na.ts\n", "http://h/", "s", &options(2, 3, 0));
    assert_eq!(r.err(), Some(JobError::Manifest(ManifestError::MalformedDuration)));
    let r = DownloadJob::from_manifest("#EXTINF:1,\na.ts\n", "nowhere", "s", &options(0, 3, 0));
    assert_eq!(r.err(), Some(JobError::Manifest(ManifestError::UnresolvedUri)));
    let r = DownloadJob::from_manifest("#EXTM3U\n", "http://h/", "s", &options(2, 3, 0));
    assert_eq!(r.err(), Some(JobError::EmptyPlan));
    let r = DownloadJob::from_manifest("#EXTINF:1,\na.ts\n", "http://h/", "s", &options(0, 3, 0));
    assert_eq!(r.err(), Some(JobError::InvalidOptions));
}
