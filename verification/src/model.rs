//! The pipeline as a state machine: what it holds, how each event changes
//! it, and what stays true whatever happens.
//!
//! The pipeline takes inputs one by one. An input that has the target
//! extension already is queued as a copy; any other is queued as a conversion
//! whose result is expected in the working directory. No more jobs are queued
//! than the ceiling allows: when the queue is full, the oldest job is flushed
//! first, that is, its converter is waited for, its file is written into the
//! archive, and the file of a conversion is removed. Jobs are flushed oldest
//! first only, so the entries of the archive stand in the order of the inputs.

use crate::names::{
    digit_width, has_target_extension, lemma_name_fits, lemma_names_same_length, numbered_name,
    WIDTH_LIMIT,
};
use crate::tar::{entry_fits, Entry, SIZE_LIMIT};
use crate::workdir::child_path;
use vstd::prelude::*;

verus! {

/// What the pipeline waits for.
#[derive(Clone, Copy, Debug, PartialEq, Eq, Structural)]
pub enum Stage {
    /// The next input, or the end of the inputs.
    Ready,
    /// Word that the converter of the newest job was started.
    Spawning,
    /// The end of the converter of the oldest job.
    Waiting,
    /// The bytes of the file of the oldest job.
    Reading,
    /// Word that the file of the job just written was removed.
    Removing,
    /// Nothing: every input is in the archive.
    Finished,
    /// Nothing: a conversion or the caller's own work failed, and the run is over.
    Aborted,
}

/// Why the pipeline refuses.
#[derive(Clone, Copy, Debug, PartialEq, Eq, Structural)]
pub enum PipelineError {
    /// The padding is so wide that entry names would not fit an archive header.
    NameTooLong,
    /// The ceiling is zero: no job could ever be queued.
    NoCapacity,
    /// The event is not the one that the pipeline waits for.
    OutOfTurn,
    /// No index is left for another input.
    TooManyInputs,
    /// A converter ended in failure.
    ConversionFailed,
    /// A file is too large for the size field of an archive header.
    EntryTooLarge,
    /// Work that the caller did for the pipeline failed: a converter could
    /// not be started or waited for, a file not read or removed, the archive
    /// not sent.
    OutsideFailure,
}

/// A queued job: whether it is a conversion, the file that will go into the
/// archive (the input itself for a copy, the converter's output for a
/// conversion), and its sequence index.
pub struct Job {
    pub convert: bool,
    pub path: Seq<u8>,
    pub index: nat,
}

/// What the caller is asked to do next.
pub enum Step {
    /// Hand over the next input, or say that there is none.
    Next,
    /// Start the converter from `input` to `output` for job `index`, then say so.
    Spawn { input: Seq<u8>, output: Seq<u8>, index: nat },
    /// Wait for the converter of job `index`, then tell how it ended.
    Wait { index: nat },
    /// Read the file at `path`, then hand over its bytes.
    Read { path: Seq<u8> },
    /// Remove the file at `path`, then say so.
    Remove { path: Seq<u8> },
    /// Nothing more: close the archive.
    Done,
}

/// What can happen to the pipeline.
pub enum Event {
    /// The caller hands over an input.
    Submit(Seq<u8>),
    /// The caller has no more inputs.
    Finish,
    /// The converter that was asked for has been started.
    Spawned,
    /// The converter that was waited for has ended, with success or not.
    Exited(bool),
    /// The file that was asked for has been read: these are its bytes.
    Loaded(Seq<u8>),
    /// The file that was to be removed is gone.
    Removed,
    /// The caller could not do what it was asked to do, or could not send
    /// the archive: the run is over.
    Failed,
}

/// The job that an input becomes when it gets `index`.
pub open spec fn planned(input: Seq<u8>, index: nat, width: nat, work_dir: Seq<u8>) -> Job {
    if has_target_extension(input) {
        Job { convert: false, path: input, index }
    } else {
        Job { convert: true, path: child_path(work_dir, numbered_name(index, width)), index }
    }
}

/// The state of a pipeline.
#[verifier::ext_equal]
pub struct Pipeline {
    /// The entries written into the archive so far.
    pub entries: Seq<Entry>,
    /// For each entry, the path of the file whose bytes the caller was asked for.
    pub sources: Seq<Seq<u8>>,
    /// The jobs in flight, oldest first.
    pub jobs: Seq<Job>,
    /// The index that the next input gets.
    pub next: nat,
    /// The zero padding of entry names.
    pub width: nat,
    /// The most jobs that may be in flight.
    pub ceiling: nat,
    /// The working directory.
    pub work_dir: Seq<u8>,
    /// What the pipeline waits for.
    pub stage: Stage,
    /// An input that waits for a free place in the queue.
    pub held: Option<Seq<u8>>,
    /// Whether the end of the inputs was announced.
    pub draining: bool,
    /// Every input accepted so far, in the order of submission.
    pub inputs: Seq<Seq<u8>>,
}

impl Pipeline {
    /// A pipeline before its first input.
    pub open spec fn start(width: nat, ceiling: nat, work_dir: Seq<u8>) -> Pipeline {
        Pipeline {
            entries: Seq::empty(),
            sources: Seq::empty(),
            jobs: Seq::empty(),
            next: 1,
            width,
            ceiling,
            work_dir,
            stage: Stage::Ready,
            held: None,
            draining: false,
            inputs: Seq::empty(),
        }
    }

    /// Whether the queue has no free place.
    pub open spec fn full(self) -> bool {
        self.jobs.len() >= self.ceiling
    }

    /// The conversions in flight: started and not yet in the archive.
    pub open spec fn running(self) -> nat {
        self.jobs.filter(|job: Job| job.convert).len()
    }

    /// The first step of flushing the oldest job: wait for its converter, or,
    /// for a copy, read its file at once.
    pub open spec fn begin_flush(self) -> (Pipeline, Step) {
        let head = self.jobs[0];
        if head.convert {
            (Pipeline { stage: Stage::Waiting, ..self }, Step::Wait { index: head.index })
        } else {
            (Pipeline { stage: Stage::Reading, ..self }, Step::Read { path: head.path })
        }
    }

    /// Queues `input` as the newest job under the next index.
    pub open spec fn enqueue(self, input: Seq<u8>) -> (Pipeline, Step) {
        let job = planned(input, self.next, self.width, self.work_dir);
        let queued = Pipeline {
            jobs: self.jobs.push(job),
            next: self.next + 1,
            held: None,
            ..self
        };
        if job.convert {
            (
                Pipeline { stage: Stage::Spawning, ..queued },
                Step::Spawn { input, output: job.path, index: job.index },
            )
        } else {
            (Pipeline { stage: Stage::Ready, ..queued }, Step::Next)
        }
    }

    /// What follows when nothing is awaited: an input that is held back is
    /// queued if there is room, else the oldest job is flushed first; at the
    /// end of the inputs the oldest job is flushed until none is left.
    pub open spec fn proceed(self) -> (Pipeline, Step) {
        match self.held {
            Some(input) => if self.full() {
                self.begin_flush()
            } else {
                self.enqueue(input)
            },
            None => if !self.draining {
                (Pipeline { stage: Stage::Ready, ..self }, Step::Next)
            } else if self.jobs.len() == 0 {
                (Pipeline { stage: Stage::Finished, ..self }, Step::Done)
            } else {
                self.begin_flush()
            },
        }
    }

    /// Takes an input: it gets the next index as soon as the queue has room.
    /// Refused when no index is left.
    pub open spec fn take(self, input: Seq<u8>) -> (Pipeline, Result<Step, PipelineError>) {
        if self.next >= usize::MAX {
            (self, Err(PipelineError::TooManyInputs))
        } else {
            let (after, step) = Pipeline {
                held: Some(input),
                inputs: self.inputs.push(input),
                draining: false,
                ..self
            }.proceed();
            (after, Ok(step))
        }
    }

    /// The state after outside work has failed: the run is aborted, and what
    /// was not done is taken back. An input that waited for room is dropped.
    /// A job whose converter could not be started leaves the queue and gives
    /// its index back, and its input is dropped, so that queue and next index
    /// are what they were before the input came.
    pub open spec fn give_up(self) -> Pipeline {
        if self.stage == Stage::Spawning {
            Pipeline {
                stage: Stage::Aborted,
                jobs: self.jobs.drop_last(),
                next: (self.next - 1) as nat,
                inputs: self.inputs.drop_last(),
                ..self
            }
        } else if self.held is Some {
            Pipeline {
                stage: Stage::Aborted,
                held: None,
                inputs: self.inputs.drop_last(),
                ..self
            }
        } else {
            Pipeline { stage: Stage::Aborted, ..self }
        }
    }

    /// The state after `event`, and the answer to the caller: the next step,
    /// or a refusal. An event that the pipeline does not wait for is refused
    /// and changes nothing. An aborted pipeline refuses every event. A
    /// finished one is done again when the end of the inputs is announced
    /// again, and takes further inputs like a ready one.
    pub open spec fn step(self, event: Event) -> (Pipeline, Result<Step, PipelineError>) {
        match (self.stage, event) {
            (Stage::Aborted, _) => (self, Err(PipelineError::OutOfTurn)),
            (_, Event::Failed) => (self.give_up(), Err(PipelineError::OutsideFailure)),
            (Stage::Ready, Event::Submit(input)) => self.take(input),
            (Stage::Finished, Event::Submit(input)) => self.take(input),
            (Stage::Ready, Event::Finish) => {
                let (after, step) = Pipeline { draining: true, ..self }.proceed();
                (after, Ok(step))
            },
            (Stage::Finished, Event::Finish) => (self, Ok(Step::Done)),
            (Stage::Spawning, Event::Spawned) => (
                Pipeline { stage: Stage::Ready, ..self },
                Ok(Step::Next),
            ),
            (Stage::Waiting, Event::Exited(success)) => if success {
                (
                    Pipeline { stage: Stage::Reading, ..self },
                    Ok(Step::Read { path: self.jobs[0].path }),
                )
            } else {
                (Pipeline { stage: Stage::Aborted, ..self }, Err(PipelineError::ConversionFailed))
            },
            (Stage::Reading, Event::Loaded(content)) => if content.len() >= SIZE_LIMIT {
                (Pipeline { stage: Stage::Aborted, ..self }, Err(PipelineError::EntryTooLarge))
            } else {
                let head = self.jobs[0];
                let written = Pipeline {
                    entries: self.entries.push(
                        Entry { name: numbered_name(head.index, self.width), content },
                    ),
                    sources: self.sources.push(head.path),
                    jobs: self.jobs.drop_first(),
                    ..self
                };
                if head.convert {
                    (
                        Pipeline { stage: Stage::Removing, ..written },
                        Ok(Step::Remove { path: head.path }),
                    )
                } else {
                    let (after, step) = written.proceed();
                    (after, Ok(step))
                }
            },
            (Stage::Removing, Event::Removed) => {
                let (after, step) = self.proceed();
                (after, Ok(step))
            },
            _ => (self, Err(PipelineError::OutOfTurn)),
        }
    }

    /// The state after a sequence of events, refused ones included.
    pub open spec fn after(self, events: Seq<Event>) -> Pipeline
        decreases events.len(),
    {
        if events.len() == 0 {
            self
        } else {
            self.after(events.drop_last()).step(events.last()).0
        }
    }

    /// What holds of the queue, the archive and the counters at all times.
    pub open spec fn sound(self) -> bool {
        &&& 1 <= self.ceiling
        &&& self.width <= WIDTH_LIMIT
        &&& self.next <= usize::MAX
        &&& self.jobs.len() <= self.ceiling
        &&& self.entries.len() + self.jobs.len() + 1 == self.next
        &&& self.inputs.len() + 1 == self.next + if self.held is Some {
            1nat
        } else {
            0nat
        }
        &&& (self.held matches Some(input) ==> input == self.inputs.last() && self.next
            < usize::MAX)
        &&& forall|i: int|
            0 <= i < self.entries.len() ==> {
                &&& (#[trigger] self.entries[i]).name == numbered_name((i + 1) as nat, self.width)
                &&& entry_fits(self.entries[i])
            }
        &&& self.sources.len() == self.entries.len()
        &&& forall|i: int|
            0 <= i < self.sources.len() ==> #[trigger] self.sources[i] == planned(
                self.inputs[i],
                (i + 1) as nat,
                self.width,
                self.work_dir,
            ).path
        &&& forall|j: int|
            0 <= j < self.jobs.len() ==> #[trigger] self.jobs[j] == planned(
                self.inputs[self.entries.len() + j],
                (self.entries.len() + j + 1) as nat,
                self.width,
                self.work_dir,
            )
    }

    /// What holds of the stage at all times: what is awaited fits what is
    /// queued and what is still to do.
    pub open spec fn staged(self) -> bool {
        match self.stage {
            Stage::Ready => self.held is None && !self.draining,
            Stage::Spawning => self.held is None && !self.draining && self.jobs.len() >= 1
                && self.jobs.last().convert,
            Stage::Waiting => self.jobs.len() >= 1 && self.jobs[0].convert && (self.held is Some)
                != self.draining,
            Stage::Reading => self.jobs.len() >= 1 && (self.held is Some) != self.draining,
            Stage::Removing => (self.held is Some) != self.draining,
            Stage::Finished => self.jobs.len() == 0 && self.held is None && self.draining,
            Stage::Aborted => true,
        }
    }

    /// What holds of a pipeline at all times.
    pub open spec fn valid(self) -> bool {
        self.sound() && self.staged()
    }
}

/// A pipeline starts in a valid state, if its ceiling is not zero and its
/// padding not wider than an archive header allows.
pub proof fn lemma_start_valid(width: nat, ceiling: nat, work_dir: Seq<u8>)
    requires
        1 <= ceiling,
        width <= WIDTH_LIMIT,
    ensures
        Pipeline::start(width, ceiling, work_dir).valid(),
{
}

proof fn lemma_begin_flush_valid(s: Pipeline)
    requires
        s.sound(),
        s.jobs.len() >= 1,
        (s.held is Some) != s.draining,
    ensures
        s.begin_flush().0.valid(),
{
}

proof fn lemma_proceed_valid(s: Pipeline)
    requires
        s.sound(),
        !(s.held is Some && s.draining),
    ensures
        s.proceed().0.valid(),
{
    match s.held {
        Some(input) => {
            if s.full() {
                lemma_begin_flush_valid(s);
            } else {
                let job = planned(input, s.next, s.width, s.work_dir);
                let after = s.enqueue(input).0;
                assert(after.jobs.last() == job);
                assert forall|j: int| 0 <= j < after.jobs.len() implies #[trigger] after.jobs[j]
                    == planned(
                    after.inputs[after.entries.len() + j],
                    (after.entries.len() + j + 1) as nat,
                    after.width,
                    after.work_dir,
                ) by {
                    if j < s.jobs.len() {
                        assert(after.jobs[j] == s.jobs[j]);
                    }
                }
            }
        },
        None => {
            if s.draining && s.jobs.len() > 0 {
                lemma_begin_flush_valid(s);
            }
        },
    }
}

proof fn lemma_take_valid(s: Pipeline, input: Seq<u8>)
    requires
        s.valid(),
        s.stage == Stage::Ready || s.stage == Stage::Finished,
    ensures
        s.take(input).0.valid(),
{
    if s.next < usize::MAX {
        let held = Pipeline {
            held: Some(input),
            inputs: s.inputs.push(input),
            draining: false,
            ..s
        };
        assert forall|j: int| 0 <= j < held.jobs.len() implies #[trigger] held.jobs[j] == planned(
            held.inputs[held.entries.len() + j],
            (held.entries.len() + j + 1) as nat,
            held.width,
            held.work_dir,
        ) by {
            assert(held.jobs[j] == s.jobs[j]);
            assert(held.inputs[held.entries.len() + j] == s.inputs[s.entries.len() + j]);
        }
        lemma_proceed_valid(held);
    }
}

proof fn lemma_give_up_valid(s: Pipeline)
    requires
        s.valid(),
    ensures
        s.give_up().valid(),
{
    let after = s.give_up();
    assert forall|i: int| 0 <= i < after.sources.len() implies #[trigger] after.sources[i]
        == planned(after.inputs[i], (i + 1) as nat, after.width, after.work_dir).path by {
        assert(after.sources[i] == s.sources[i]);
        assert(after.inputs[i] == s.inputs[i]);
    }
    assert forall|j: int| 0 <= j < after.jobs.len() implies #[trigger] after.jobs[j] == planned(
        after.inputs[after.entries.len() + j],
        (after.entries.len() + j + 1) as nat,
        after.width,
        after.work_dir,
    ) by {
        assert(after.jobs[j] == s.jobs[j]);
        assert(after.inputs[after.entries.len() + j] == s.inputs[s.entries.len() + j]);
    }
}

/// No event takes a pipeline out of the valid states.
pub proof fn lemma_step_valid(s: Pipeline, event: Event)
    requires
        s.valid(),
    ensures
        s.step(event).0.valid(),
{
    match (s.stage, event) {
        (Stage::Aborted, _) => {},
        (_, Event::Failed) => {
            lemma_give_up_valid(s);
        },
        (Stage::Ready, Event::Submit(input)) => {
            lemma_take_valid(s, input);
        },
        (Stage::Finished, Event::Submit(input)) => {
            lemma_take_valid(s, input);
        },
        (Stage::Ready, Event::Finish) => {
            lemma_proceed_valid(Pipeline { draining: true, ..s });
        },
        (Stage::Reading, Event::Loaded(content)) => {
            if content.len() < SIZE_LIMIT {
                let head = s.jobs[0];
                let entry = Entry { name: numbered_name(head.index, s.width), content };
                let written = Pipeline {
                    entries: s.entries.push(entry),
                    sources: s.sources.push(head.path),
                    jobs: s.jobs.drop_first(),
                    ..s
                };
                assert forall|i: int|
                    0 <= i < written.sources.len() implies #[trigger] written.sources[i]
                    == planned(
                    written.inputs[i],
                    (i + 1) as nat,
                    written.width,
                    written.work_dir,
                ).path by {
                    if i < s.sources.len() {
                        assert(written.sources[i] == s.sources[i]);
                    }
                }
                lemma_name_fits(head.index as usize, s.width);
                assert forall|i: int| 0 <= i < written.entries.len() implies {
                    &&& (#[trigger] written.entries[i]).name == numbered_name(
                        (i + 1) as nat,
                        written.width,
                    )
                    &&& entry_fits(written.entries[i])
                } by {
                    if i < s.entries.len() {
                        assert(written.entries[i] == s.entries[i]);
                    }
                }
                assert forall|j: int| 0 <= j < written.jobs.len() implies #[trigger] written.jobs[j]
                    == planned(
                    written.inputs[written.entries.len() + j],
                    (written.entries.len() + j + 1) as nat,
                    written.width,
                    written.work_dir,
                ) by {
                    assert(written.jobs[j] == s.jobs[j + 1]);
                }
                if !head.convert {
                    lemma_proceed_valid(written);
                }
            }
        },
        (Stage::Removing, Event::Removed) => {
            lemma_proceed_valid(s);
        },
        _ => {},
    }
}

/// Every state that a pipeline reaches from its start is valid.
pub proof fn lemma_always_valid(s: Pipeline, events: Seq<Event>)
    requires
        s.valid(),
    ensures
        s.after(events).valid(),
    decreases events.len(),
{
    if events.len() > 0 {
        lemma_always_valid(s, events.drop_last());
        lemma_step_valid(s.after(events.drop_last()), events.last());
    }
}

/// Never are more conversions in flight than the ceiling allows.
pub proof fn lemma_bounded_concurrency(s: Pipeline)
    requires
        s.valid(),
    ensures
        s.running() <= s.jobs.len() <= s.ceiling,
{
    s.jobs.lemma_filter_len(|job: Job| job.convert);
}

/// Whatever happens to a pipeline from its start on, never are more
/// conversions in flight than its ceiling allows.
pub proof fn lemma_never_over_ceiling(
    width: nat,
    ceiling: nat,
    work_dir: Seq<u8>,
    events: Seq<Event>,
)
    requires
        1 <= ceiling,
        width <= WIDTH_LIMIT,
    ensures
        Pipeline::start(width, ceiling, work_dir).after(events).running() <= ceiling,
{
    let start = Pipeline::start(width, ceiling, work_dir);
    lemma_configuration_stays(start, events);
    lemma_always_valid(start, events);
    lemma_bounded_concurrency(start.after(events));
}

/// No event changes the padding, the ceiling or the working directory.
pub proof fn lemma_configuration_stays(s: Pipeline, events: Seq<Event>)
    ensures
        s.after(events).width == s.width,
        s.after(events).ceiling == s.ceiling,
        s.after(events).work_dir == s.work_dir,
    decreases events.len(),
{
    if events.len() > 0 {
        lemma_configuration_stays(s, events.drop_last());
    }
}

/// The archive only grows, and by one entry at most with each event: what was
/// written stays, in its place.
pub proof fn lemma_append_only(s: Pipeline, event: Event)
    ensures
        ({
            let after = s.step(event).0;
            ||| after.entries == s.entries
            ||| after.entries.len() == s.entries.len() + 1 && after.entries.drop_last()
                == s.entries
        }),
{
    let after = s.step(event).0;
    if after.entries.len() != s.entries.len() {
        assert(after.entries.drop_last() =~= s.entries);
    }
}

/// Entries stand in the order of the inputs: entry `i` has the name of index
/// `i + 1`, and its bytes are those that the caller handed over when asked
/// for the file of input `i`, which for an input that needs no conversion is
/// the input itself, and for any other the file of that index in the working
/// directory. The jobs in flight follow in the same order.
pub proof fn lemma_entries_follow_inputs(s: Pipeline)
    requires
        s.valid(),
    ensures
        s.entries.len() == s.sources.len(),
        s.entries.len() + s.jobs.len() <= s.inputs.len(),
        forall|i: int|
            0 <= i < s.entries.len() ==> {
                &&& (#[trigger] s.entries[i]).name == numbered_name((i + 1) as nat, s.width)
                &&& has_target_extension(s.inputs[i]) ==> s.sources[i] == s.inputs[i]
                &&& !has_target_extension(s.inputs[i]) ==> s.sources[i] == child_path(
                    s.work_dir,
                    numbered_name((i + 1) as nat, s.width),
                )
            },
        forall|j: int|
            0 <= j < s.jobs.len() ==> (#[trigger] s.jobs[j]).index == s.entries.len() + j + 1,
{
    assert forall|i: int| 0 <= i < s.entries.len() implies {
        &&& (#[trigger] s.entries[i]).name == numbered_name((i + 1) as nat, s.width)
        &&& has_target_extension(s.inputs[i]) ==> s.sources[i] == s.inputs[i]
        &&& !has_target_extension(s.inputs[i]) ==> s.sources[i] == child_path(
            s.work_dir,
            numbered_name((i + 1) as nat, s.width),
        )
    } by {
        assert(s.sources[i] == planned(s.inputs[i], (i + 1) as nat, s.width, s.work_dir).path);
    }
}

/// When the pipeline has finished, the archive holds one entry for each
/// input, named by the indices from 1 on; and if the padding is the digit
/// count of the number of inputs, every name is that many digits and the
/// extension.
pub proof fn lemma_finished_holds_all(s: Pipeline)
    requires
        s.valid(),
        s.stage == Stage::Finished,
    ensures
        s.entries.len() == s.inputs.len(),
        forall|i: int|
            0 <= i < s.entries.len() ==> (#[trigger] s.entries[i]).name == numbered_name(
                (i + 1) as nat,
                s.width,
            ),
        s.width == digit_width(s.inputs.len()) ==> forall|i: int|
            0 <= i < s.entries.len() ==> (#[trigger] s.entries[i]).name.len() == s.width + 5,
{
    if s.width == digit_width(s.inputs.len()) {
        assert forall|i: int| 0 <= i < s.entries.len() implies (#[trigger] s.entries[i]).name.len()
            == s.width + 5 by {
            lemma_names_same_length((i + 1) as nat, s.inputs.len());
        }
    }
}

/// When the pipeline has finished, nothing is left in flight: no job is
/// queued, no conversion runs, and no input is held back.
pub proof fn lemma_finished_is_drained(s: Pipeline)
    requires
        s.valid(),
        s.stage == Stage::Finished,
    ensures
        s.jobs.len() == 0,
        s.running() == 0,
        s.held is None,
{
    lemma_bounded_concurrency(s);
}

/// A converter that fails ends the run: nothing is written for its job, and
/// the pipeline is aborted.
pub proof fn lemma_failure_aborts(s: Pipeline)
    requires
        s.stage == Stage::Waiting,
    ensures
        s.step(Event::Exited(false)) == (
            Pipeline { stage: Stage::Aborted, ..s },
            Err::<Step, PipelineError>(PipelineError::ConversionFailed),
        ),
{
}

/// Outside work that fails ends the run, whatever the pipeline waited for:
/// the pipeline is aborted and nothing is written.
pub proof fn lemma_outside_failure_aborts(s: Pipeline)
    requires
        s.stage != Stage::Aborted,
    ensures
        ({
            let (after, answer) = s.step(Event::Failed);
            &&& answer == Err::<Step, PipelineError>(PipelineError::OutsideFailure)
            &&& after.stage == Stage::Aborted
            &&& after.entries == s.entries
            &&& after.sources == s.sources
            &&& after.width == s.width
            &&& after.ceiling == s.ceiling
        }),
{
}

/// A converter that could not be started takes no index: after the failure
/// the queue, the archive, the next index and the inputs accepted are what
/// they were before the input came, and the pipeline is aborted.
pub proof fn lemma_failed_start_takes_nothing(s: Pipeline, input: Seq<u8>)
    requires
        s.valid(),
        s.stage == Stage::Ready,
        !s.full(),
        !has_target_extension(input),
        s.next < usize::MAX,
    ensures
        ({
            let (asked, answer) = s.step(Event::Submit(input));
            &&& answer matches Ok(Step::Spawn { input: from, index, .. }) && from == input && index
                == s.next
            &&& asked.step(Event::Failed) == (
                Pipeline { stage: Stage::Aborted, ..s },
                Err::<Step, PipelineError>(PipelineError::OutsideFailure),
            )
        }),
{
    let asked = s.step(Event::Submit(input)).0;
    let after = asked.step(Event::Failed).0;
    assert(after.jobs =~= s.jobs);
    assert(after.inputs =~= s.inputs);
    assert(after =~= Pipeline { stage: Stage::Aborted, ..s });
}

/// The end of the inputs may be announced again: a finished pipeline
/// answers that it is done, and stays as it is.
pub proof fn lemma_finish_again(s: Pipeline)
    requires
        s.stage == Stage::Finished,
    ensures
        s.step(Event::Finish) == (s, Ok::<Step, PipelineError>(Step::Done)),
{
}

/// An aborted pipeline stays as it is: whatever follows, failures included,
/// no entry is written and every event is refused.
pub proof fn lemma_aborted_stays(s: Pipeline, events: Seq<Event>)
    requires
        s.stage == Stage::Aborted,
    ensures
        s.after(events) == s,
    decreases events.len(),
{
    if events.len() > 0 {
        lemma_aborted_stays(s, events.drop_last());
    }
}

/// The pipeline never asks for a file to be removed, nor for a converter to
/// write, anywhere but in the working directory, under the name of the job's
/// own index.
pub proof fn lemma_writes_stay_inside(s: Pipeline, event: Event)
    requires
        s.valid(),
    ensures
        match s.step(event).1 {
            Ok(Step::Remove { path }) => path == child_path(
                s.work_dir,
                numbered_name((s.entries.len() + 1) as nat, s.width),
            ),
            Ok(Step::Spawn { input, output, index }) => output == child_path(
                s.work_dir,
                numbered_name(index, s.width),
            ) && index == s.next,
            _ => true,
        },
{
}

} // verus!
