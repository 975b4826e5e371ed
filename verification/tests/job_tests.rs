use media_fetch::error::JobError;
use media_fetch::job::{Begun, Completed, DownloadJob, Poll, Progress};
use media_fetch::manifest::{Playlist, Segment};
use media_fetch::options::Options;
use media_fetch::schedule::TaskStatus;
use media_fetch::video::{SegmentedVideo, Video};

fn playlist_job(durations: &[u64], parallel: usize, waves: usize) -> DownloadJob {
    let segments = durations
        .iter()
        .enumerate()
        .map(|(i, d)| Segment {
            name: format!("seg{}.ts", i),
            uri: format!("http://example.com/seg{}.ts", i),
            duration: *d,
        })
        .collect();
    let options =
        Options { max_parallel_downloads: parallel, max_download_retries: waves, block_size: 0 };
    DownloadJob::from_playlist(&Playlist::new(segments), "out_segments", &options).unwrap()
}

/// What a run of a job did.
struct Run {
    result: Result<(), JobError>,
    fetches: Vec<u64>,
    peak: usize,
    observations: Vec<Progress>,
    done_order: Vec<u64>,
}

/// Runs a job to its end. `exists` tells whether a task's slot is on disk,
/// `fetch` whether the given attempt (counted from 1) at a task goes well,
/// and `pick` which of the fetches in flight ends next.
fn run(
    job: &mut DownloadJob,
    exists: &dyn Fn(u64) -> bool,
    fetch: &dyn Fn(u64, usize) -> bool,
    pick: &dyn Fn(usize, usize) -> usize,
) -> Run {
    let limit_guard = 100_000;
    let mut attempts = vec![0usize; job.task_count()];
    let mut flying: Vec<u64> = Vec::new();
    let mut out = Run {
        result: Ok(()),
        fetches: Vec::new(),
        peak: 0,
        observations: Vec::new(),
        done_order: Vec::new(),
    };
    let mut steps = 0;
    loop {
        steps += 1;
        assert!(steps < limit_guard);
        assert_eq!(job.in_flight(), flying.len());
        match job.poll() {
            Poll::Ready(id) => match job.begin(id, exists(id)) {
                Begun::Skip(p) => {
                    out.done_order.push(id);
                    out.observations.push(p);
                }
                Begun::Fetch => {
                    attempts[id as usize] += 1;
                    out.fetches.push(id);
                    flying.push(id);
                    out.peak = out.peak.max(flying.len());
                }
                Begun::Refused => panic!("a ready task was refused"),
            },
            Poll::Wait => {
                assert!(!flying.is_empty());
                let id = flying.remove(pick(steps, flying.len()));
                match job.complete(id, fetch(id, attempts[id as usize])) {
                    Completed::Done(p) => {
                        out.done_order.push(id);
                        out.observations.push(p);
                    }
                    Completed::Retry => {}
                    Completed::Refused => panic!("a task in flight was refused"),
                }
            }
            Poll::Finished(result) => {
                assert!(flying.is_empty());
                out.result = result;
                return out;
            }
        }
    }
}

fn never(_: u64) -> bool {
    false
}

fn first(_: usize, _: usize) -> usize {
    0
}

fn last(_: usize, n: usize) -> usize {
    n - 1
}

fn scattered(step: usize, n: usize) -> usize {
    (step * 7 + 3) % n
}

#[test]
fn a_job_whose_fetches_go_well_ends_well() {
    let mut job = playlist_job(&[5, 6, 7, 8, 9], 2, 1);
    let r = run(&mut job, &never, &|_, _| true, &first);
    assert_eq!(r.result, Ok(()));
    assert_eq!(r.fetches.len(), 5);
    assert_eq!(job.completed_count(), 5);
    assert_eq!(job.completed_units(), 35);
    assert_eq!(job.total_units(), 35);
    assert_eq!(job.wave(), 1);
    for id in 0..5 {
        assert_eq!(job.status(id), Some(TaskStatus::Done));
    }
    assert_eq!(job.status(5), None);
}

#[test]
fn tasks_are_offered_in_the_order_of_their_numbers() {
    let mut job = playlist_job(&[1, 1, 1, 1], 4, 1);
    for id in 0..4u64 {
        assert_eq!(job.poll(), Poll::Ready(id));
        assert_eq!(job.begin(id, false), Begun::Fetch);
        assert_eq!(job.status(id), Some(TaskStatus::InFlight));
    }
    assert_eq!(job.poll(), Poll::Wait);
    assert_eq!(job.in_flight(), 4);
}

#[test]
fn no_more_fetches_in_flight_than_permits() {
    for limit in 1usize..6 {
        for pick in [&first as &dyn Fn(usize, usize) -> usize, &last, &scattered] {
            let mut job = playlist_job(&[1; 17], limit, 4);
            let r = run(&mut job, &never, &|id, attempt| attempt > (id as usize % 3), pick);
            assert_eq!(r.result, Ok(()));
            assert!(r.peak <= limit);
            assert_eq!(r.peak, limit.min(17));
        }
    }
}

#[test]
fn a_task_is_refused_while_no_permit_is_free() {
    let mut job = playlist_job(&[1, 1, 1], 2, 1);
    assert_eq!(job.poll(), Poll::Ready(0));
    assert_eq!(job.begin(0, false), Begun::Fetch);
    assert_eq!(job.begin(1, false), Begun::Fetch);
    assert_eq!(job.begin(2, false), Begun::Refused);
    assert_eq!(job.begin(2, true), Begun::Refused);
    assert_eq!(job.in_flight(), 2);
    assert_eq!(job.status(2), Some(TaskStatus::Pending));
    assert_eq!(job.poll(), Poll::Wait);
    assert!(matches!(job.complete(0, true), Completed::Done(_)));
    assert_eq!(job.poll(), Poll::Ready(2));
}

#[test]
fn steps_out_of_turn_are_refused() {
    let mut job = playlist_job(&[1, 1], 2, 2);
    assert_eq!(job.begin(0, false), Begun::Refused);
    assert_eq!(job.complete(0, true), Completed::Refused);
    assert_eq!(job.poll(), Poll::Ready(0));
    assert_eq!(job.complete(0, true), Completed::Refused);
    assert_eq!(job.begin(7, false), Begun::Refused);
    assert_eq!(job.complete(7, true), Completed::Refused);
    assert_eq!(job.begin(0, false), Begun::Fetch);
    assert_eq!(job.begin(0, false), Begun::Refused);
    assert_eq!(job.complete(0, false), Completed::Retry);
    assert_eq!(job.begin(0, false), Begun::Refused);
    assert_eq!(job.complete(0, true), Completed::Refused);
    assert_eq!(job.status(0), Some(TaskStatus::Pending));
    assert_eq!(job.completed_count(), 0);
}

#[test]
fn a_failed_task_waits_for_the_next_wave() {
    let mut job = playlist_job(&[1, 1], 1, 2);
    assert_eq!(job.poll(), Poll::Ready(0));
    assert_eq!(job.wave(), 1);
    assert_eq!(job.begin(0, false), Begun::Fetch);
    assert_eq!(job.complete(0, false), Completed::Retry);
    assert_eq!(job.poll(), Poll::Ready(1));
    assert_eq!(job.wave(), 1);
    assert_eq!(job.begin(1, false), Begun::Fetch);
    assert!(matches!(job.complete(1, true), Completed::Done(_)));
    assert_eq!(job.poll(), Poll::Ready(0));
    assert_eq!(job.wave(), 2);
    assert_eq!(job.begin(0, false), Begun::Fetch);
    assert_eq!(job.complete(0, false), Completed::Retry);
    assert_eq!(job.poll(), Poll::Finished(Err(JobError::IncompleteDownload { unfinished: 1 })));
    assert_eq!(job.status(0), Some(TaskStatus::Failed));
    assert_eq!(job.status(1), Some(TaskStatus::Done));
    assert_eq!(job.poll(), Poll::Finished(Err(JobError::IncompleteDownload { unfinished: 1 })));
    assert_eq!(job.begin(0, false), Begun::Refused);
}

#[test]
fn fetches_that_fail_k_times_need_more_than_k_waves() {
    for k in 0usize..5 {
        for waves in 0usize..7 {
            for pick in [&first as &dyn Fn(usize, usize) -> usize, &scattered] {
                let mut job = playlist_job(&[3; 6], 3, waves);
                let r = run(&mut job, &never, &|_, attempt| attempt > k, pick);
                if waves > k {
                    assert_eq!(r.result, Ok(()));
                    assert_eq!(r.fetches.len(), 6 * (k + 1));
                    assert_eq!(job.completed_count(), 6);
                    assert_eq!(job.wave(), k + 1);
                } else {
                    assert_eq!(
                        r.result,
                        Err(JobError::IncompleteDownload { unfinished: 6 })
                    );
                    assert_eq!(r.fetches.len(), 6 * waves);
                    assert_eq!(job.completed_count(), 0);
                    assert_eq!(job.wave(), waves);
                }
            }
        }
    }
}

#[test]
fn a_ceiling_one_below_the_failures_leaves_every_task_unfinished() {
    let k = 3;
    let mut job = playlist_job(&[1; 4], 2, k - 1);
    let r = run(&mut job, &never, &|_, attempt| attempt > k, &last);
    assert_eq!(r.result, Err(JobError::IncompleteDownload { unfinished: 4 }));
    for id in 0..4 {
        assert_eq!(job.status(id), Some(TaskStatus::Failed));
    }
    assert!(r.observations.is_empty());
}

#[test]
fn no_task_is_fetched_more_often_than_there_are_waves() {
    let mut job = playlist_job(&[1; 5], 2, 3);
    let r = run(&mut job, &never, &|id, _| id % 2 == 0, &scattered);
    assert_eq!(r.result, Err(JobError::IncompleteDownload { unfinished: 2 }));
    for id in 0..5u64 {
        let n = r.fetches.iter().filter(|f| **f == id).count();
        assert_eq!(n, if id % 2 == 0 { 1 } else { 3 });
    }
}

#[test]
fn a_job_without_waves_fetches_nothing() {
    let mut job = playlist_job(&[1, 2, 3], 2, 0);
    let r = run(&mut job, &never, &|_, _| true, &first);
    assert_eq!(r.result, Err(JobError::IncompleteDownload { unfinished: 3 }));
    assert!(r.fetches.is_empty());
}

#[test]
fn slots_on_disk_are_not_fetched_again() {
    let mut job = playlist_job(&[10, 20, 30, 40, 50], 2, 2);
    let r = run(&mut job, &|id| id != 3, &|_, _| true, &first);
    assert_eq!(r.result, Ok(()));
    assert_eq!(r.fetches, vec![3]);
    assert_eq!(job.completed_count(), 5);
    assert_eq!(job.completed_units(), 150);
    assert_eq!(r.observations.len(), 5);
}

#[test]
fn a_second_run_over_a_kept_scratch_directory_fetches_nothing() {
    let mut first_run = playlist_job(&[1; 6], 3, 1);
    let r1 = run(&mut first_run, &never, &|id, _| id < 4, &scattered);
    assert_eq!(r1.result, Err(JobError::IncompleteDownload { unfinished: 2 }));
    let stored: Vec<u64> = r1.done_order.clone();
    let mut second_run = playlist_job(&[1; 6], 3, 1);
    let r2 = run(&mut second_run, &|id| stored.contains(&id), &|_, _| true, &first);
    assert_eq!(r2.result, Ok(()));
    assert_eq!(r2.fetches, vec![4, 5]);
    let mut third_run = playlist_job(&[1; 6], 3, 1);
    let r3 = run(&mut third_run, &|_| true, &|_, _| false, &first);
    assert_eq!(r3.result, Ok(()));
    assert!(r3.fetches.is_empty());
    assert_eq!(r3.peak, 0);
}

#[test]
fn a_skipped_task_counts_towards_the_progress() {
    let mut job = playlist_job(&[10, 20], 1, 1);
    assert_eq!(job.poll(), Poll::Ready(0));
    assert_eq!(
        job.begin(0, true),
        Begun::Skip(Progress {
            completed: 1,
            total: 2,
            completed_units: 10,
            total_units: 30,
            label: "seg0.ts".to_string(),
        })
    );
    assert_eq!(job.in_flight(), 0);
    assert_eq!(job.status(0), Some(TaskStatus::Done));
    assert_eq!(job.poll(), Poll::Ready(1));
    assert_eq!(job.begin(1, false), Begun::Fetch);
    assert_eq!(
        job.complete(1, true),
        Completed::Done(Progress {
            completed: 2,
            total: 2,
            completed_units: 30,
            total_units: 30,
            label: "seg1.ts".to_string(),
        })
    );
    assert_eq!(job.poll(), Poll::Finished(Ok(())));
}

#[test]
fn progress_never_goes_back_and_never_passes_the_total() {
    for pick in [&first as &dyn Fn(usize, usize) -> usize, &last, &scattered] {
        let mut job = playlist_job(&[4, 0, 9, u64::MAX, 1, 7, u64::MAX], 3, 5);
        let total = job.total_units();
        assert_eq!(total, 2 * (u64::MAX as u128) + 21);
        let r = run(&mut job, &|id| id == 2, &|id, attempt| attempt > (id as usize % 4), pick);
        assert_eq!(r.result, Ok(()));
        assert_eq!(r.observations.len(), 7);
        let mut count = 0;
        let mut units = 0;
        for p in &r.observations {
            assert_eq!(p.completed, count + 1);
            assert!(p.completed_units >= units);
            assert!(p.completed_units <= p.total_units);
            assert!(p.completed <= p.total);
            assert_eq!(p.total, 7);
            assert_eq!(p.total_units, total);
            count = p.completed;
            units = p.completed_units;
        }
        assert_eq!(units, total);
    }
}

#[test]
fn pieces_are_joined_in_the_order_of_the_task_numbers() {
    let expected: Vec<String> = (0..9).map(|i| format!("out_segments/{}.ts", i)).collect();
    let mut orders = Vec::new();
    for pick in [&first as &dyn Fn(usize, usize) -> usize, &last, &scattered] {
        let mut job = playlist_job(&[1; 9], 4, 3);
        let r = run(&mut job, &never, &|id, attempt| attempt > (id as usize % 2), pick);
        assert_eq!(r.result, Ok(()));
        assert_eq!(job.combine(), Ok(expected.clone()));
        orders.push(r.done_order);
    }
    assert_ne!(orders[0], orders[1]);
    let content = |path: &String| format!("<{}>", path).into_bytes();
    let joined: Vec<u8> = expected.iter().flat_map(content).collect();
    let mut job = playlist_job(&[1; 9], 4, 3);
    run(&mut job, &never, &|_, _| true, &scattered);
    let again: Vec<u8> = job.combine().unwrap().iter().flat_map(content).collect();
    assert_eq!(again, joined);
}

#[test]
fn a_job_that_is_not_done_cannot_be_joined() {
    let mut job = playlist_job(&[1, 1], 2, 1);
    assert_eq!(job.combine(), Err(JobError::ContractViolation));
    assert_eq!(job.poll(), Poll::Ready(0));
    assert_eq!(job.begin(0, false), Begun::Fetch);
    assert!(matches!(job.complete(0, true), Completed::Done(_)));
    assert_eq!(job.combine(), Err(JobError::ContractViolation));
    assert_eq!(job.begin(1, false), Begun::Fetch);
    assert_eq!(job.complete(1, false), Completed::Retry);
    assert_eq!(job.poll(), Poll::Finished(Err(JobError::IncompleteDownload { unfinished: 1 })));
    assert_eq!(job.combine(), Err(JobError::ContractViolation));
}

#[test]
fn ranges_of_a_file_are_fetched_and_joined() {
    let video = Video::new("http://example.com/v.mp4".to_string(), "out.mp4".to_string(), 10);
    let sv = SegmentedVideo::new(video, 4, "out.mp4_segments".to_string()).unwrap();
    let options = Options { max_parallel_downloads: 2, max_download_retries: 2, block_size: 4 };
    let mut job = DownloadJob::from_video(&sv, &options).unwrap();
    let r = run(&mut job, &never, &|id, attempt| id != 1 || attempt > 1, &last);
    assert_eq!(r.result, Ok(()));
    assert_eq!(r.fetches.len(), 4);
    assert_eq!(job.completed_units(), 10);
    let sizes: Vec<u128> = r.observations.iter().map(|p| p.completed_units).collect();
    assert_eq!(sizes.last(), Some(&10));
    assert_eq!(
        job.combine(),
        Ok(vec![
            "out.mp4_segments/0.ts".to_string(),
            "out.mp4_segments/1.ts".to_string(),
            "out.mp4_segments/2.ts".to_string(),
        ])
    );
}
