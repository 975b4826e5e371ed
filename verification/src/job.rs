//! A download job: its tasks, the steps of its schedule, the progress it
//! reports and the order in which its pieces are joined.
//!
//! The job itself performs no fetch. Its caller asks it what to do next
//! with `poll`, tells it with `begin` whether the task's slot is on disk
//! already, performs the fetch that `begin` orders, and reports how it went
//! with `complete`. Every step follows the rules of `schedule`.

use vstd::prelude::*;
use crate::decimal::{decimal_digits, push_decimal};
use crate::error::{JobError, ManifestError};
use crate::manifest::{
    lemma_segment_count, parse_playlist_segments, parse_segments_spec, segment_line_count,
    segment_views, total_duration_of, Playlist, SegmentView,
};
use crate::options::Options;
use crate::schedule::{
    count_eligible, count_status, lemma_begin, lemma_bounds, lemma_complete, lemma_count_extremes, lemma_give_up,
    lemma_next_wave, units_done, units_total, JobView, Slot, TaskStatus,
};
use crate::text::{chars_of, join, lines, string_of};
use crate::video::{
    chunk_at, lemma_chunk_bounds, lemma_plan_partitions, range_plan, SegmentedVideo, VideoSegment,
};

verus! {

/// The name of the directory that takes a job's pieces: the output path
/// with `_segments` appended.
pub open spec fn scratch_dir_spec(output: Seq<char>) -> Seq<char> {
    output + "_segments"@
}

/// The name of the directory that takes a job's pieces.
pub fn scratch_dir(output: &str) -> (r: String)
    ensures
        r@ == scratch_dir_spec(output@),
{
    string_of(&join(&chars_of(output), &chars_of("_segments")))
}

/// The path of the slot of task `id`: a file in the scratch directory
/// named by the task's number, with the suffix `.ts`.
pub open spec fn slot_path_spec(folder: Seq<char>, id: nat) -> Seq<char> {
    folder + "/"@ + decimal_digits(id) + ".ts"@
}

/// The path of the slot of task `id`.
pub fn slot_path(folder: &str, id: u64) -> (r: String)
    ensures
        r@ == slot_path_spec(folder@, id as nat),
{
    let mut out = join(&chars_of(folder), &chars_of("/"));
    push_decimal(id as u128, &mut out);
    string_of(&join(&out, &chars_of(".ts")))
}

/// One unit of work: what to fetch and where to store it.
#[derive(Debug, Clone, PartialEq, Eq)]
pub struct SegmentTask {
    /// The task's number. The tasks of a job are numbered from zero
    /// without gaps, and their pieces are joined in this order.
    pub id: u64,
    /// The address to fetch from.
    pub source_uri: String,
    /// The first and the last byte to ask for, where the task is a byte
    /// range of a larger file.
    pub byte_range: Option<(u64, u64)>,
    /// The path of the task's slot.
    pub destination: String,
    /// The playing time in microseconds, where the task is a segment of a
    /// playlist.
    pub expected_duration: Option<u64>,
    /// The name under which progress on the task is reported.
    pub label: String,
}

/// A task as plain values.
pub struct TaskView {
    pub id: u64,
    pub source_uri: Seq<char>,
    pub byte_range: Option<(u64, u64)>,
    pub destination: Seq<char>,
    pub expected_duration: Option<u64>,
    pub label: Seq<char>,
}

impl View for SegmentTask {
    type V = TaskView;

    open spec fn view(&self) -> TaskView {
        TaskView {
            id: self.id,
            source_uri: self.source_uri@,
            byte_range: self.byte_range,
            destination: self.destination@,
            expected_duration: self.expected_duration,
            label: self.label@,
        }
    }
}

/// The views of a sequence of tasks.
pub open spec fn task_views(v: Seq<SegmentTask>) -> Seq<TaskView> {
    v.map_values(|t: SegmentTask| t@)
}

/// The task for segment `i` of a playlist.
pub open spec fn playlist_task(segment: SegmentView, folder: Seq<char>, i: int) -> TaskView {
    TaskView {
        id: i as u64,
        source_uri: segment.uri,
        byte_range: None,
        destination: slot_path_spec(folder, i as nat),
        expected_duration: Some(segment.duration),
        label: segment.name,
    }
}

/// The tasks for the segments of a playlist: one for each segment, in
/// manifest order.
pub open spec fn playlist_tasks(segments: Seq<SegmentView>, folder: Seq<char>) -> Seq<TaskView> {
    Seq::new(segments.len(), |i: int| playlist_task(segments[i], folder, i))
}

/// The task for one byte range of a file.
pub open spec fn range_task(range: VideoSegment, source: Seq<char>, folder: Seq<char>) -> TaskView {
    TaskView {
        id: range.id,
        source_uri: source,
        byte_range: Some((range.start, range.end)),
        destination: slot_path_spec(folder, range.id as nat),
        expected_duration: None,
        label: decimal_digits(range.id as nat),
    }
}

/// The tasks for the byte ranges of a file, in order.
pub open spec fn range_tasks(plan: Seq<VideoSegment>, source: Seq<char>, folder: Seq<char>) -> Seq<
    TaskView,
> {
    Seq::new(plan.len(), |i: int| range_task(plan[i], source, folder))
}

/// The share of each task in the total: the playing time of a segment, the
/// byte count of a range.
pub open spec fn task_units(task: TaskView) -> nat {
    match task.expected_duration {
        Some(d) => d as nat,
        None => match task.byte_range {
            Some((start, end)) => (end - start + 1) as nat,
            None => 0,
        },
    }
}

/// What the job records of one task.
#[derive(Debug, Clone, Copy, PartialEq, Eq)]
pub struct TaskState {
    pub status: TaskStatus,
    /// The last wave in which the task was begun; 0 before the first.
    pub last_wave: usize,
    /// How many fetches of the task have failed.
    pub failures: usize,
    /// The task's share of the total.
    pub units: u64,
}

/// A task's record as the schedule sees it.
pub open spec fn slot_of(s: TaskState) -> Slot {
    Slot {
        status: s.status,
        last_wave: s.last_wave as nat,
        failures: s.failures as nat,
        units: s.units as nat,
    }
}

/// The records of a job as the schedule sees them.
pub open spec fn slots_of(states: Seq<TaskState>) -> Seq<Slot> {
    states.map_values(|s: TaskState| slot_of(s))
}

/// One observation of a job's progress.
#[derive(Debug, Clone, PartialEq, Eq)]
pub struct Progress {
    /// The number of tasks done.
    pub completed: usize,
    /// The number of tasks.
    pub total: usize,
    /// The units done: microseconds of playing time, or bytes.
    pub completed_units: u128,
    /// The units of all tasks.
    pub total_units: u128,
    /// The label of the task that was just done.
    pub label: String,
}

/// What a job asks of its caller next.
#[derive(Debug, Clone, Copy, PartialEq, Eq)]
pub enum Poll {
    /// The task with this number may be begun now.
    Ready(u64),
    /// Nothing can be begun before a fetch that is in flight has ended.
    Wait,
    /// The job is over.
    Finished(Result<(), JobError>),
}

/// What became of a task that the caller asked to begin.
#[derive(Debug, Clone, PartialEq, Eq)]
pub enum Begun {
    /// The task's slot existed: the task is done and nothing is to be fetched.
    Skip(Progress),
    /// The task is in flight: its bytes are to be fetched and stored.
    Fetch,
    /// The task cannot be begun now; nothing has changed.
    Refused,
}

/// What became of a task whose fetch has ended.
#[derive(Debug, Clone, PartialEq, Eq)]
pub enum Completed {
    /// The task is done.
    Done(Progress),
    /// The fetch failed: the task waits for the next wave.
    Retry,
    /// The task was not in flight; nothing has changed.
    Refused,
}

/// A download job.
#[derive(Debug)]
pub struct DownloadJob {
    tasks: Vec<SegmentTask>,
    states: Vec<TaskState>,
    limit: usize,
    max_waves: usize,
    wave: usize,
    in_flight: usize,
    completed_count: usize,
    completed_units: u128,
    total_units: u128,
}

impl View for DownloadJob {
    type V = JobView;

    closed spec fn view(&self) -> JobView {
        JobView {
            slots: slots_of(self.states@),
            limit: self.limit as nat,
            max_waves: self.max_waves as nat,
            wave: self.wave as nat,
        }
    }
}

/// The state of a job that has not begun: every task pending, no wave run.
pub open spec fn fresh_job(plan: Seq<TaskView>, limit: nat, max_waves: nat) -> JobView {
    JobView {
        slots: Seq::new(
            plan.len(),
            |i: int|
                Slot {
                    status: TaskStatus::Pending,
                    last_wave: 0,
                    failures: 0,
                    units: task_units(plan[i]),
                },
        ),
        limit,
        max_waves,
        wave: 0,
    }
}

/// A job that has not begun obeys the rules of the schedule: nothing is
/// in flight, nothing is done, and no fetch has failed yet, so it follows
/// every script.
pub proof fn lemma_fresh_job(plan: Seq<TaskView>, limit: nat, max_waves: nat, k: nat)
    requires
        plan.len() >= 1,
        limit >= 1,
    ensures
        fresh_job(plan, limit, max_waves).inv(),
        fresh_job(plan, limit, max_waves).in_flight() == 0,
        fresh_job(plan, limit, max_waves).completed() == 0,
        fresh_job(plan, limit, max_waves).completed_units() == 0,
        fresh_job(plan, limit, max_waves).follows_script(k),
        fresh_job(plan, limit, max_waves).steps_left() <= max_waves * (2 * plan.len() + 1),
{
    let job = fresh_job(plan, limit, max_waves);
    lemma_count_extremes(job.slots, TaskStatus::InFlight);
    lemma_count_extremes(job.slots, TaskStatus::Done);
    lemma_none_done(job.slots);
    lemma_none_eligible(job.slots);
}

/// Where no task is done, no units are done.
proof fn lemma_none_done(slots: Seq<Slot>)
    requires
        forall|i: int| 0 <= i < slots.len() ==> (#[trigger] slots[i]).status != TaskStatus::Done,
    ensures
        units_done(slots) == 0,
    decreases slots.len(),
{
    if slots.len() > 0 {
        let front = slots.drop_last();
        assert forall|i: int| 0 <= i < front.len() implies (#[trigger] front[i]).status
            != TaskStatus::Done by {
            assert(front[i] == slots[i]);
        }
        lemma_none_done(front);
        assert(slots.last() == slots[slots.len() - 1]);
    }
}

/// Before the first wave no task is eligible.
proof fn lemma_none_eligible(slots: Seq<Slot>)
    ensures
        count_eligible(slots, 0) == 0,
    decreases slots.len(),
{
    if slots.len() > 0 {
        lemma_none_eligible(slots.drop_last());
    }
}

/// The units of a playlist's tasks add up to the playlist's playing time.
pub proof fn lemma_units_are_durations(slots: Seq<Slot>, segments: Seq<SegmentView>)
    requires
        slots.len() == segments.len(),
        forall|i: int| 0 <= i < slots.len() ==> (#[trigger] slots[i]).units == segments[i].duration,
    ensures
        units_total(slots) == total_duration_of(segments),
    decreases slots.len(),
{
    if slots.len() > 0 {
        let front = slots.drop_last();
        assert forall|i: int| 0 <= i < front.len() implies (#[trigger] front[i]).units
            == segments.drop_last()[i].duration by {
            assert(front[i] == slots[i]);
        }
        lemma_units_are_durations(front, segments.drop_last());
        assert(slots.last() == slots[slots.len() - 1]);
    }
}

/// The units of the first `k` ranges of a plan: `chunk` bytes for each
/// range but the last, and with the last range the whole length.
proof fn lemma_ranges_add_up(slots: Seq<Slot>, length: nat, chunk: nat, k: int)
    requires
        0 < length <= u64::MAX,
        0 < chunk,
        slots.len() == range_plan(length, chunk).len(),
        forall|i: int|
            0 <= i < slots.len() ==> (#[trigger] slots[i]).units == range_plan(length, chunk)[i].end
                - range_plan(length, chunk)[i].start + 1,
        0 <= k <= slots.len(),
    ensures
        k < slots.len() ==> units_total(slots.take(k)) == k * chunk,
        k == slots.len() ==> units_total(slots.take(k)) == length,
    decreases k,
{
    let plan = range_plan(length, chunk);
    lemma_plan_partitions(length, chunk);
    if k == 0 {
        assert(slots.take(0) =~= Seq::<Slot>::empty());
        assert(0 * chunk == 0);
    } else {
        lemma_ranges_add_up(slots, length, chunk, k - 1);
        assert(slots.take(k).drop_last() =~= slots.take(k - 1));
        assert(slots.take(k).last() == slots[k - 1]);
        assert((k - 1) * chunk + chunk == k * chunk) by (nonlinear_arith);
        if k == slots.len() {
            let n = plan.len() as int;
            assert(plan.last() == plan[n - 1]);
            assert(plan[n - 1] == chunk_at(n - 1, length, chunk));
            assert((n - 1) * chunk < length <= n * chunk) by (nonlinear_arith)
                requires
                    chunk > 0,
                    length > 0,
                    n == (length + chunk - 1) / chunk as int,
            ;
            lemma_chunk_bounds(n - 1, n, chunk as int, length as int);
        }
    }
}

/// The units of a file's tasks add up to the file's length.
pub proof fn lemma_units_are_bytes(slots: Seq<Slot>, length: nat, chunk: nat)
    requires
        0 < length <= u64::MAX,
        0 < chunk,
        slots.len() == range_plan(length, chunk).len(),
        forall|i: int|
            0 <= i < slots.len() ==> (#[trigger] slots[i]).units == range_plan(length, chunk)[i].end
                - range_plan(length, chunk)[i].start + 1,
    ensures
        units_total(slots) == length,
{
    lemma_ranges_add_up(slots, length, chunk, slots.len() as int);
    assert(slots.take(slots.len() as int) =~= slots);
}

/// What one more pending task adds to the counts.
proof fn lemma_push_pending(states: Seq<TaskState>, s: TaskState)
    requires
        s.status == TaskStatus::Pending,
    ensures
        count_status(slots_of(states.push(s)), TaskStatus::InFlight) == count_status(
            slots_of(states),
            TaskStatus::InFlight,
        ),
        count_status(slots_of(states.push(s)), TaskStatus::Done) == count_status(
            slots_of(states),
            TaskStatus::Done,
        ),
        units_done(slots_of(states.push(s))) == units_done(slots_of(states)),
        units_total(slots_of(states.push(s))) == units_total(slots_of(states)) + s.units,
{
    assert(slots_of(states.push(s)).drop_last() =~= slots_of(states));
}

impl DownloadJob {
    /// The job's records and counters agree with each other and with the
    /// rules of the schedule.
    pub closed spec fn wf(&self) -> bool {
        &&& self.tasks.len() == self.states.len()
        &&& self@.inv()
        &&& self.in_flight == self@.in_flight()
        &&& self.completed_count == self@.completed()
        &&& self.completed_units == self@.completed_units()
        &&& self.total_units == self@.total_units()
        &&& forall|i: int| 0 <= i < self.tasks.len() ==> (#[trigger] self.tasks[i]).id == i
        &&& forall|i: int|
            0 <= i < self.tasks.len() ==> (#[trigger] self.states[i]).units == task_units(
                self.tasks[i]@,
            )
    }

    /// The job's tasks, in the order of their numbers.
    pub closed spec fn plan(&self) -> Seq<TaskView> {
        task_views(self.tasks@)
    }

    /// A well-formed job obeys the rules of the schedule, has one record
    /// for each task, and numbers its tasks from zero without gaps.
    pub proof fn lemma_wf(&self)
        requires
            self.wf(),
        ensures
            self@.inv(),
            self@.slots.len() == self.plan().len(),
            forall|i: int| 0 <= i < self.plan().len() ==> (#[trigger] self.plan()[i]).id == i,
            forall|i: int|
                0 <= i < self.plan().len() ==> (#[trigger] self@.slots[i]).units == task_units(
                    self.plan()[i],
                ),
    {
        assert forall|i: int| 0 <= i < self.plan().len() implies (#[trigger] self.plan()[i]).id
            == i by {
            assert(self.tasks[i].id == i);
        }
        assert forall|i: int| 0 <= i < self.plan().len() implies (#[trigger] self@.slots[i]).units
            == task_units(self.plan()[i]) by {
            assert(self.states[i].units == task_units(self.tasks[i]@));
        }
    }

    /// Plans the download of a playlist: one task for each segment, in
    /// manifest order, stored under `folder`.
    ///
    /// A playlist without segments gives `EmptyPlan`; a limit of zero
    /// parallel fetches gives `InvalidOptions`.
    pub fn from_playlist(playlist: &Playlist, folder: &str, options: &Options) -> (r: Result<
        DownloadJob,
        JobError,
    >)
        ensures
            match r {
                Ok(job) => {
                    &&& job.wf()
                    &&& playlist@.segments.len() > 0
                    &&& options.max_parallel_downloads > 0
                    &&& job.plan() == playlist_tasks(playlist@.segments, folder@)
                    &&& job@ == fresh_job(
                        job.plan(),
                        options.max_parallel_downloads as nat,
                        options.max_download_retries as nat,
                    )
                    &&& job@.total_units() == playlist@.total_duration
                },
                Err(e) => if playlist@.segments.len() == 0 {
                    e == JobError::EmptyPlan
                } else {
                    e == JobError::InvalidOptions && options.max_parallel_downloads == 0
                },
            },
    {
        let segments = playlist.segments();
        let total_units = playlist.total_duration();
        if segments.len() == 0 {
            return Err(JobError::EmptyPlan);
        }
        if options.max_parallel_downloads == 0 {
            return Err(JobError::InvalidOptions);
        }
        let ghost plan = playlist_tasks(playlist@.segments, folder@);
        let mut tasks: Vec<SegmentTask> = Vec::new();
        let mut states: Vec<TaskState> = Vec::new();
        let mut i: usize = 0;
        assert(task_views(tasks@) =~= plan.take(0));
        while i < segments.len()
            invariant
                i <= segments.len(),
                segment_views(segments@) == playlist@.segments,
                plan == playlist_tasks(playlist@.segments, folder@),
                tasks.len() == i,
                states.len() == i,
                task_views(tasks@) == plan.take(i as int),
                forall|j: int|
                    0 <= j < i ==> (#[trigger] states[j]) == (TaskState {
                        status: TaskStatus::Pending,
                        last_wave: 0,
                        failures: 0,
                        units: segments[j].duration,
                    }),
                count_status(slots_of(states@), TaskStatus::InFlight) == 0,
                count_status(slots_of(states@), TaskStatus::Done) == 0,
                units_done(slots_of(states@)) == 0,
            decreases segments.len() - i,
        {
            let segment = &segments[i];
            let state = TaskState {
                status: TaskStatus::Pending,
                last_wave: 0,
                failures: 0,
                units: segment.duration,
            };
            let task = SegmentTask {
                id: i as u64,
                source_uri: segment.uri.clone(),
                byte_range: None,
                destination: slot_path(folder, i as u64),
                expected_duration: Some(segment.duration),
                label: segment.name.clone(),
            };
            proof {
                lemma_push_pending(states@, state);
                assert(playlist@.segments[i as int] == segment@);
                assert(task@ == plan[i as int]);
                assert(task_views(tasks@.push(task)) =~= plan.take(i + 1));
            }
            tasks.push(task);
            states.push(state);
            i += 1;
        }
        let job = DownloadJob {
            tasks,
            states,
            limit: options.max_parallel_downloads,
            max_waves: options.max_download_retries,
            wave: 0,
            in_flight: 0,
            completed_count: 0,
            completed_units: 0,
            total_units,
        };
        proof {
            assert(plan.take(i as int) =~= plan);
            assert(job@.slots =~= fresh_job(
                job.plan(),
                options.max_parallel_downloads as nat,
                options.max_download_retries as nat,
            ).slots);
            lemma_units_are_durations(job@.slots, playlist@.segments);
            assert forall|j: int| 0 <= j < job.tasks.len() implies (#[trigger] job.tasks[j]).id
                == j by {
                assert(task_views(job.tasks@)[j] == plan[j]);
            }
            assert forall|j: int| 0 <= j < job.tasks.len() implies (#[trigger] job.states[j]).units
                == task_units(job.tasks[j]@) by {
                assert(task_views(job.tasks@)[j] == plan[j]);
            }
        }
        Ok(job)
    }

    /// Plans the download of a playlist from the text of its media
    /// manifest. References in the manifest that are not absolute addresses
    /// are appended to `prefix`.
    ///
    /// A manifest that cannot be read gives its error as `Manifest`; one
    /// without segments gives `EmptyPlan`; a limit of zero parallel fetches
    /// gives `InvalidOptions`.
    pub fn from_manifest(text: &str, prefix: &str, folder: &str, options: &Options) -> (r: Result<
        DownloadJob,
        JobError,
    >)
        ensures
            match parse_segments_spec(text@, prefix@) {
                Err(e) => r matches Err(error) && error == JobError::Manifest(e),
                Ok(segments) => match r {
                    Ok(job) => {
                        &&& job.wf()
                        &&& segments.len() > 0
                        &&& options.max_parallel_downloads > 0
                        &&& job.plan() == playlist_tasks(segments, folder@)
                        &&& job.plan().len() == segment_line_count(text@)
                        &&& job@ == fresh_job(
                            job.plan(),
                            options.max_parallel_downloads as nat,
                            options.max_download_retries as nat,
                        )
                        &&& job@.total_units() == total_duration_of(segments)
                    },
                    Err(e) => if segments.len() == 0 {
                        e == JobError::EmptyPlan
                    } else {
                        e == JobError::InvalidOptions && options.max_parallel_downloads == 0
                    },
                },
            },
    {
        match parse_playlist_segments(text, prefix) {
            Err(e) => Err(JobError::Manifest(e)),
            Ok(playlist) => DownloadJob::from_playlist(&playlist, folder, options),
        }
    }

    /// Plans the download of a file in byte ranges: one task for each
    /// range of the plan, in order.
    ///
    /// A limit of zero parallel fetches gives `InvalidOptions`.
    pub fn from_video(video: &SegmentedVideo, options: &Options) -> (r: Result<
        DownloadJob,
        JobError,
    >)
        ensures
            match r {
                Ok(job) => {
                    &&& job.wf()
                    &&& options.max_parallel_downloads > 0
                    &&& job.plan() == range_tasks(video.plan(), video.source(), video.scratch())
                    &&& job@ == fresh_job(
                        job.plan(),
                        options.max_parallel_downloads as nat,
                        options.max_download_retries as nat,
                    )
                    &&& job@.total_units() == video.length()
                },
                Err(e) => e == JobError::InvalidOptions && options.max_parallel_downloads == 0,
            },
    {
        if options.max_parallel_downloads == 0 {
            return Err(JobError::InvalidOptions);
        }
        let ranges = video.segments();
        let source = &video.video().url;
        let folder = video.folder();
        let ghost plan = range_tasks(video.plan(), video.source(), video.scratch());
        proof {
            lemma_plan_partitions(video.length(), video.chunk());
        }
        let mut tasks: Vec<SegmentTask> = Vec::new();
        let mut states: Vec<TaskState> = Vec::new();
        let mut i: usize = 0;
        assert(task_views(tasks@) =~= plan.take(0));
        while i < ranges.len()
            invariant
                i <= ranges.len(),
                ranges@ == video.plan(),
                source@ == video.source(),
                folder@ == video.scratch(),
                plan == range_tasks(video.plan(), video.source(), video.scratch()),
                forall|j: int| 0 <= j < ranges.len() ==> (#[trigger] ranges[j]).id == j,
                forall|j: int| 0 <= j < ranges.len() ==> (#[trigger] ranges[j]).start <= ranges[j].end,
                forall|j: int|
                    0 <= j < ranges.len() ==> (#[trigger] ranges[j]).end - ranges[j].start + 1
                        <= u64::MAX,
                tasks.len() == i,
                states.len() == i,
                task_views(tasks@) == plan.take(i as int),
                forall|j: int|
                    0 <= j < i ==> (#[trigger] states[j]) == (TaskState {
                        status: TaskStatus::Pending,
                        last_wave: 0,
                        failures: 0,
                        units: (ranges[j].end - ranges[j].start + 1) as u64,
                    }),
                count_status(slots_of(states@), TaskStatus::InFlight) == 0,
                count_status(slots_of(states@), TaskStatus::Done) == 0,
                units_done(slots_of(states@)) == 0,
            decreases ranges.len() - i,
        {
            let range = &ranges[i];
            assert(range.id == i);
            let state = TaskState {
                status: TaskStatus::Pending,
                last_wave: 0,
                failures: 0,
                units: range.size(),
            };
            let mut label: Vec<char> = Vec::new();
            push_decimal(range.id as u128, &mut label);
            assert(label@ =~= decimal_digits(range.id as nat));
            let task = SegmentTask {
                id: range.id,
                source_uri: source.clone(),
                byte_range: Some((range.start, range.end)),
                destination: slot_path(folder.as_str(), range.id),
                expected_duration: None,
                label: string_of(&label),
            };
            proof {
                lemma_push_pending(states@, state);
                assert(task@ == plan[i as int]);
                assert(task_views(tasks@.push(task)) =~= plan.take(i + 1));
            }
            tasks.push(task);
            states.push(state);
            i += 1;
        }
        let job = DownloadJob {
            tasks,
            states,
            limit: options.max_parallel_downloads,
            max_waves: options.max_download_retries,
            wave: 0,
            in_flight: 0,
            completed_count: 0,
            completed_units: 0,
            total_units: video.video().size as u128,
        };
        proof {
            assert(plan.take(i as int) =~= plan);
            assert forall|j: int| 0 <= j < job.tasks.len() implies (#[trigger] job.tasks[j]).id
                == j by {
                assert(task_views(job.tasks@)[j] == plan[j]);
            }
            assert forall|j: int| 0 <= j < job.tasks.len() implies (#[trigger] job.states[j]).units
                == task_units(job.tasks[j]@) by {
                assert(task_views(job.tasks@)[j] == plan[j]);
            }
            assert(job@.slots =~= fresh_job(
                job.plan(),
                options.max_parallel_downloads as nat,
                options.max_download_retries as nat,
            ).slots);
            assert forall|j: int| 0 <= j < job@.slots.len() implies (#[trigger] job@.slots[j]).units
                == ranges[j].end - ranges[j].start + 1 by {}
            lemma_units_are_bytes(job@.slots, video.length(), video.chunk());
        }
        Ok(job)
    }

    /// The number of tasks.
    pub fn task_count(&self) -> (n: usize)
        requires
            self.wf(),
        ensures
            n == self.plan().len(),
            n == self@.slots.len(),
            n >= 1,
    {
        self.tasks.len()
    }

    /// Task number `id`.
    pub fn task(&self, id: u64) -> (t: Option<&SegmentTask>)
        requires
            self.wf(),
        ensures
            match t {
                Some(task) => id < self.plan().len() && task@ == self.plan()[id as int] && task.id
                    == id,
                None => id >= self.plan().len(),
            },
    {
        if id < self.tasks.len() as u64 {
            let task = &self.tasks[id as usize];
            assert(self.tasks[id as int].id == id);
            Some(task)
        } else {
            None
        }
    }

    /// Where task number `id` stands.
    pub fn status(&self, id: u64) -> (s: Option<TaskStatus>)
        requires
            self.wf(),
        ensures
            match s {
                Some(status) => id < self@.slots.len() && status == self@.slots[id as int].status,
                None => id >= self@.slots.len(),
            },
    {
        if id < self.states.len() as u64 {
            Some(self.states[id as usize].status)
        } else {
            None
        }
    }

    /// The number of tasks in flight. It never exceeds the limit.
    pub fn in_flight(&self) -> (n: usize)
        requires
            self.wf(),
        ensures
            n == self@.in_flight(),
            n <= self@.limit,
    {
        self.in_flight
    }

    /// The number of tasks done. It never exceeds the number of tasks.
    pub fn completed_count(&self) -> (n: usize)
        requires
            self.wf(),
        ensures
            n == self@.completed(),
            n <= self.plan().len(),
    {
        proof {
            lemma_bounds(self@);
        }
        self.completed_count
    }

    /// The units done so far. They never exceed the total.
    pub fn completed_units(&self) -> (n: u128)
        requires
            self.wf(),
        ensures
            n == self@.completed_units(),
            n <= self@.total_units(),
    {
        proof {
            lemma_bounds(self@);
        }
        self.completed_units
    }

    /// The units of all tasks: the playlist's playing time in
    /// microseconds, or the file's length in bytes.
    pub fn total_units(&self) -> (n: u128)
        requires
            self.wf(),
        ensures
            n == self@.total_units(),
    {
        self.total_units
    }

    /// The number of waves begun so far. It never exceeds the ceiling.
    pub fn wave(&self) -> (n: usize)
        requires
            self.wf(),
        ensures
            n == self@.wave,
            n <= self@.max_waves,
    {
        self.wave
    }

    /// The eligible task with the smallest number.
    fn next_eligible(&self) -> (r: Option<usize>)
        requires
            self.wf(),
        ensures
            match r {
                Some(i) => self@.is_next(i as int),
                None => forall|j: int| !self@.eligible(j),
            },
    {
        let mut i: usize = 0;
        while i < self.states.len()
            invariant
                i <= self.states.len(),
                forall|j: int| 0 <= j < i ==> !self@.eligible(j),
            decreases self.states.len() - i,
        {
            if self.states[i].status == TaskStatus::Pending && self.states[i].last_wave
                < self.wave {
                return Some(i);
            }
            i += 1;
        }
        None
    }

    /// The observation to report when task `i` has just been done.
    fn progress(&self, i: usize) -> (p: Progress)
        requires
            self.wf(),
            i < self.tasks.len(),
        ensures
            self.reports(p, i as int),
    {
        Progress {
            completed: self.completed_count,
            total: self.tasks.len(),
            completed_units: self.completed_units,
            total_units: self.total_units,
            label: self.tasks[i].label.clone(),
        }
    }

    /// `p` is the job's progress as it stands, reported for task `i`.
    pub open spec fn reports(&self, p: Progress, i: int) -> bool {
        &&& p.completed == self@.completed()
        &&& p.total == self.plan().len()
        &&& p.completed_units == self@.completed_units()
        &&& p.total_units == self@.total_units()
        &&& p.label@ == self.plan()[i].label
    }

    /// Turns every pending task into a failed one.
    fn fail_pending(&mut self)
        requires
            old(self).wf(),
            old(self)@.ends_badly(),
        ensures
            final(self).wf(),
            final(self)@ == old(self)@.give_up(),
            final(self).plan() == old(self).plan(),
    {
        let ghost before = self.states@;
        let ghost start = self@;
        let mut i: usize = 0;
        while i < self.states.len()
            invariant
                i <= self.states.len(),
                self.states.len() == before.len(),
                self.tasks == old(self).tasks,
                self.limit == old(self).limit,
                self.max_waves == old(self).max_waves,
                self.wave == old(self).wave,
                self.in_flight == old(self).in_flight,
                self.completed_count == old(self).completed_count,
                self.completed_units == old(self).completed_units,
                self.total_units == old(self).total_units,
                forall|j: int|
                    0 <= j < i ==> (#[trigger] self.states[j]) == (if before[j].status
                        == TaskStatus::Pending {
                        TaskState { status: TaskStatus::Failed, ..before[j] }
                    } else {
                        before[j]
                    }),
                forall|j: int| i <= j < before.len() ==> (#[trigger] self.states[j]) == before[j],
            decreases self.states.len() - i,
        {
            let s = self.states[i];
            if s.status == TaskStatus::Pending {
                self.states[i] = TaskState { status: TaskStatus::Failed, ..s };
            }
            i += 1;
        }
        proof {
            lemma_give_up(start);
            assert(self@.slots =~= start.give_up().slots);
            assert forall|j: int| 0 <= j < self.tasks.len() implies (#[trigger] self.states[j]).units
                == task_units(self.tasks[j]@) by {
                assert(before[j].units == task_units(old(self).tasks[j]@));
            }
        }
    }

    /// Asks the job what to do next.
    ///
    /// `Ready(id)`: task `id` may be begun now; it is the eligible task
    /// with the smallest number, and a permit is free. Where the wave
    /// before had nothing left to do, a new wave has begun.
    /// `Wait`: no task can be begun before a fetch has ended, and at least
    /// one fetch is in flight.
    /// `Finished(Ok)`: every task is done.
    /// `Finished(Err)`: the last wave is over and some tasks are not done;
    /// they have failed for good, and the error holds their number.
    pub fn poll(&mut self) -> (r: Poll)
        requires
            old(self).wf(),
        ensures
            final(self).wf(),
            final(self).plan() == old(self).plan(),
            final(self)@.in_flight() == old(self)@.in_flight(),
            final(self)@.completed() == old(self)@.completed(),
            final(self)@.completed_units() == old(self)@.completed_units(),
            final(self)@.total_units() == old(self)@.total_units(),
            match r {
                Poll::Ready(id) => {
                    &&& final(self)@.is_next(id as int)
                    &&& final(self)@.can_begin(id as int)
                    &&& if exists|j: int| old(self)@.eligible(j) {
                        final(self)@ == old(self)@
                    } else {
                        &&& old(self)@.wave_over()
                        &&& !old(self)@.ends_well()
                        &&& old(self)@.wave < old(self)@.max_waves
                        &&& final(self)@ == old(self)@.next_wave()
                    }
                },
                Poll::Wait => {
                    &&& final(self)@ == old(self)@
                    &&& old(self)@.in_flight() > 0
                    &&& forall|j: int| !old(self)@.can_begin(j)
                },
                Poll::Finished(Ok(())) => final(self)@ == old(self)@ && old(self)@.ends_well(),
                Poll::Finished(Err(e)) => {
                    &&& old(self)@.ends_badly()
                    &&& final(self)@ == old(self)@.give_up()
                    &&& e == (JobError::IncompleteDownload {
                        unfinished: (old(self)@.slots.len() - old(self)@.completed()) as usize,
                    })
                },
            },
    {
        proof {
            lemma_bounds(self@);
            lemma_count_extremes(self@.slots, TaskStatus::Done);
            lemma_count_extremes(self@.slots, TaskStatus::InFlight);
        }
        match self.next_eligible() {
            Some(i) => {
                assert(self@.eligible(i as int));
                if self.in_flight < self.limit {
                    Poll::Ready(i as u64)
                } else {
                    Poll::Wait
                }
            },
            None => {
                if self.in_flight > 0 {
                    Poll::Wait
                } else if self.completed_count == self.tasks.len() {
                    Poll::Finished(Ok(()))
                } else if self.wave < self.max_waves {
                    let ghost start = self@;
                    proof {
                        lemma_next_wave(start);
                    }
                    self.wave = self.wave + 1;
                    assert(self@ == start.next_wave());
                    match self.next_eligible() {
                        Some(i) => Poll::Ready(i as u64),
                        None => {
                            proof {
                                let k = choose|k: int|
                                    0 <= k < start.slots.len() && (#[trigger] start.slots[k]).status
                                        != TaskStatus::Done;
                                assert(start.slot_inv(k));
                                assert(start.slots[k].status == TaskStatus::Pending);
                                assert(self@.eligible(k));
                            }
                            Poll::Wait
                        },
                    }
                } else {
                    let unfinished: usize = self.tasks.len() - self.completed_count;
                    proof {
                        lemma_give_up(self@);
                    }
                    self.fail_pending();
                    Poll::Finished(Err(JobError::IncompleteDownload { unfinished }))
                }
            },
        }
    }

    /// Begins task `id`, given whether its slot exists on disk.
    ///
    /// A task that is not eligible, or any task while no permit is free,
    /// is refused and nothing changes. A task whose slot exists is done at
    /// once, without a fetch, and counts towards the progress. Any other
    /// task is now in flight and holds a permit: `Fetch` orders its fetch.
    pub fn begin(&mut self, id: u64, slot_exists: bool) -> (r: Begun)
        requires
            old(self).wf(),
        ensures
            final(self).wf(),
            final(self).plan() == old(self).plan(),
            match r {
                Begun::Refused => !old(self)@.can_begin(id as int) && final(self)@ == old(self)@,
                Begun::Skip(p) => {
                    &&& slot_exists
                    &&& old(self)@.can_begin(id as int)
                    &&& final(self)@ == old(self)@.begin(id as int, true)
                    &&& final(self).reports(p, id as int)
                    &&& final(self)@.in_flight() == old(self)@.in_flight()
                    &&& final(self)@.completed() == old(self)@.completed() + 1
                    &&& final(self)@.completed_units() == old(self)@.completed_units()
                        + old(self)@.slots[id as int].units
                },
                Begun::Fetch => {
                    &&& !slot_exists
                    &&& old(self)@.can_begin(id as int)
                    &&& final(self)@ == old(self)@.begin(id as int, false)
                    &&& final(self)@.in_flight() == old(self)@.in_flight() + 1
                    &&& final(self)@.completed() == old(self)@.completed()
                    &&& final(self)@.completed_units() == old(self)@.completed_units()
                },
            },
            final(self)@.in_flight() <= final(self)@.limit,
            final(self)@.completed() >= old(self)@.completed(),
            final(self)@.completed() <= final(self).plan().len(),
            final(self)@.completed_units() >= old(self)@.completed_units(),
            final(self)@.completed_units() <= final(self)@.total_units(),
            final(self)@.total_units() == old(self)@.total_units(),
    {
        proof {
            lemma_bounds(self@);
        }
        if id >= self.states.len() as u64 {
            return Begun::Refused;
        }
        let i: usize = id as usize;
        let s = self.states[i];
        if !(s.status == TaskStatus::Pending && s.last_wave < self.wave && self.in_flight
            < self.limit) {
            return Begun::Refused;
        }
        let ghost start = self@;
        let ghost before = self.states@;
        proof {
            lemma_begin(start, i as int, slot_exists);
            lemma_bounds(start.begin(i as int, slot_exists));
        }
        if slot_exists {
            self.states[i] = TaskState { status: TaskStatus::Done, last_wave: self.wave, ..s };
            proof {
                assert(self@.slots =~= start.begin(i as int, true).slots);
            }
            self.completed_count = self.completed_count + 1;
            self.completed_units = self.completed_units + s.units as u128;
            proof {
                assert forall|j: int| 0 <= j < self.tasks.len() implies (
                #[trigger] self.states[j]).units == task_units(self.tasks[j]@) by {
                    assert(before[j].units == task_units(old(self).tasks[j]@));
                }
            }
            Begun::Skip(self.progress(i))
        } else {
            self.states[i] = TaskState { status: TaskStatus::InFlight, last_wave: self.wave, ..s };
            proof {
                assert(self@.slots =~= start.begin(i as int, false).slots);
            }
            self.in_flight = self.in_flight + 1;
            proof {
                assert forall|j: int| 0 <= j < self.tasks.len() implies (
                #[trigger] self.states[j]).units == task_units(self.tasks[j]@) by {
                    assert(before[j].units == task_units(old(self).tasks[j]@));
                }
            }
            Begun::Fetch
        }
    }

    /// Records the end of the fetch of task `id`: `ok` says whether its
    /// bytes were fetched and stored.
    ///
    /// A task that is not in flight is refused and nothing changes.
    /// Otherwise the task's permit is free again. After a fetch that went
    /// well the task is done and counts towards the progress; after any
    /// failure it is pending again and waits for the next wave.
    pub fn complete(&mut self, id: u64, ok: bool) -> (r: Completed)
        requires
            old(self).wf(),
        ensures
            final(self).wf(),
            final(self).plan() == old(self).plan(),
            match r {
                Completed::Refused => {
                    &&& !(id < old(self)@.slots.len() && old(self)@.slots[id as int].status
                        == TaskStatus::InFlight)
                    &&& final(self)@ == old(self)@
                },
                Completed::Done(p) => {
                    &&& ok
                    &&& id < old(self)@.slots.len()
                    &&& old(self)@.slots[id as int].status == TaskStatus::InFlight
                    &&& final(self)@ == old(self)@.complete(id as int, true)
                    &&& final(self).reports(p, id as int)
                    &&& final(self)@.in_flight() == old(self)@.in_flight() - 1
                    &&& final(self)@.completed() == old(self)@.completed() + 1
                    &&& final(self)@.completed_units() == old(self)@.completed_units()
                        + old(self)@.slots[id as int].units
                },
                Completed::Retry => {
                    &&& !ok
                    &&& id < old(self)@.slots.len()
                    &&& old(self)@.slots[id as int].status == TaskStatus::InFlight
                    &&& final(self)@ == old(self)@.complete(id as int, false)
                    &&& final(self)@.in_flight() == old(self)@.in_flight() - 1
                    &&& final(self)@.completed() == old(self)@.completed()
                    &&& final(self)@.completed_units() == old(self)@.completed_units()
                },
            },
            final(self)@.in_flight() <= final(self)@.limit,
            final(self)@.completed() >= old(self)@.completed(),
            final(self)@.completed() <= final(self).plan().len(),
            final(self)@.completed_units() >= old(self)@.completed_units(),
            final(self)@.completed_units() <= final(self)@.total_units(),
            final(self)@.total_units() == old(self)@.total_units(),
    {
        proof {
            lemma_bounds(self@);
        }
        if id >= self.states.len() as u64 {
            return Completed::Refused;
        }
        let i: usize = id as usize;
        let s = self.states[i];
        if s.status != TaskStatus::InFlight {
            return Completed::Refused;
        }
        let ghost start = self@;
        let ghost before = self.states@;
        proof {
            lemma_complete(start, i as int, ok);
            lemma_bounds(start.complete(i as int, ok));
            assert(start.slot_inv(i as int));
        }
        self.in_flight = self.in_flight - 1;
        if ok {
            self.states[i] = TaskState { status: TaskStatus::Done, ..s };
            proof {
                assert(self@.slots =~= start.complete(i as int, true).slots);
            }
            self.completed_count = self.completed_count + 1;
            self.completed_units = self.completed_units + s.units as u128;
            proof {
                assert forall|j: int| 0 <= j < self.tasks.len() implies (
                #[trigger] self.states[j]).units == task_units(self.tasks[j]@) by {
                    assert(before[j].units == task_units(old(self).tasks[j]@));
                }
            }
            Completed::Done(self.progress(i))
        } else {
            self.states[i] = TaskState {
                status: TaskStatus::Pending,
                failures: s.failures + 1,
                ..s
            };
            proof {
                assert(self@.slots =~= start.complete(i as int, false).slots);
                assert forall|j: int| 0 <= j < self.tasks.len() implies (
                #[trigger] self.states[j]).units == task_units(self.tasks[j]@) by {
                    assert(before[j].units == task_units(old(self).tasks[j]@));
                }
            }
            Completed::Retry
        }
    }

    /// The paths of the slots in the order in which their bytes are to be
    /// joined: by task number, ascending, whatever the order in which the
    /// tasks were done.
    ///
    /// Only a job whose tasks are all done can be joined; any other job
    /// gives `ContractViolation`.
    pub fn combine(&self) -> (r: Result<Vec<String>, JobError>)
        requires
            self.wf(),
        ensures
            match r {
                Ok(paths) => self@.ends_well() && text_views(paths@) == join_order(self.plan()),
                Err(e) => e == JobError::ContractViolation && !self@.ends_well(),
            },
    {
        if self.completed_count != self.tasks.len() {
            return Err(JobError::ContractViolation);
        }
        let mut paths: Vec<String> = Vec::new();
        let mut i: usize = 0;
        assert(text_views(paths@) =~= join_order(self.plan()).take(0));
        while i < self.tasks.len()
            invariant
                i <= self.tasks.len(),
                text_views(paths@) == join_order(self.plan()).take(i as int),
            decreases self.tasks.len() - i,
        {
            let path = self.tasks[i].destination.clone();
            proof {
                let order = join_order(self.plan());
                assert(self.plan()[i as int] == self.tasks[i as int]@);
                assert(order[i as int] == path@);
                assert(text_views(paths@.push(path)) =~= text_views(paths@).push(path@));
                assert(order.take(i + 1) =~= order.take(i as int).push(order[i as int]));
            }
            paths.push(path);
            i += 1;
        }
        assert(join_order(self.plan()).take(i as int) =~= join_order(self.plan()));
        Ok(paths)
    }
}

/// The views of a sequence of strings.
pub open spec fn text_views(v: Seq<String>) -> Seq<Seq<char>> {
    v.map_values(|t: String| t@)
}

/// The slots of a plan in the order of the task numbers.
pub open spec fn join_order(plan: Seq<TaskView>) -> Seq<Seq<char>> {
    plan.map_values(|t: TaskView| t.destination)
}

/// The pieces of a playlist are joined in manifest order, and those of a
/// file in the order of its byte ranges: piece `i` is the slot of task `i`.
/// The order depends on the plan alone, which no step of a job changes, so
/// it is the same whatever the order in which the tasks were done.
pub proof fn lemma_join_order(
    segments: Seq<SegmentView>,
    length: nat,
    chunk: nat,
    source: Seq<char>,
    folder: Seq<char>,
)
    requires
        0 < length <= u64::MAX,
        0 < chunk,
    ensures
        join_order(playlist_tasks(segments, folder)) == Seq::new(
            segments.len(),
            |i: int| slot_path_spec(folder, i as nat),
        ),
        join_order(range_tasks(range_plan(length, chunk), source, folder)) == Seq::new(
            range_plan(length, chunk).len(),
            |i: int| slot_path_spec(folder, i as nat),
        ),
{
    lemma_plan_partitions(length, chunk);
    assert(join_order(playlist_tasks(segments, folder)) =~= Seq::new(
        segments.len(),
        |i: int| slot_path_spec(folder, i as nat),
    ));
    let plan = range_plan(length, chunk);
    assert forall|i: int| 0 <= i < plan.len() implies join_order(
        range_tasks(plan, source, folder),
    )[i] == slot_path_spec(folder, i as nat) by {
        assert(plan[i].id == i);
    }
    assert(join_order(range_tasks(plan, source, folder)) =~= Seq::new(
        plan.len(),
        |i: int| slot_path_spec(folder, i as nat),
    ));
}

/// A media manifest that can be read gives a job with one task for each
/// of its segment lines, and the tasks are numbered from zero without gaps
/// and without repeats.
pub proof fn lemma_one_task_per_segment_line(
    text: Seq<char>,
    prefix: Seq<char>,
    playlist: &Playlist,
    folder: Seq<char>,
    job: &DownloadJob,
)
    requires
        parse_segments_spec(text, prefix) == Ok::<Seq<SegmentView>, ManifestError>(
            playlist@.segments,
        ),
        job.wf(),
        job.plan() == playlist_tasks(playlist@.segments, folder),
    ensures
        job.plan().len() == segment_line_count(text),
        forall|i: int| 0 <= i < job.plan().len() ==> (#[trigger] job.plan()[i]).id == i,
        forall|i: int, j: int|
            0 <= i < j < job.plan().len() ==> (#[trigger] job.plan()[i]).id != (
            #[trigger] job.plan()[j]).id,
{
    let all = lines(text);
    lemma_segment_count(all, prefix, all.len() as int);
    assert(all.take(all.len() as int) =~= all);
    job.lemma_wf();
}

} // verus!
