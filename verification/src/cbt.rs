//! The writer of comic book archives: the pipeline that queues the inputs,
//! bounds the conversions in flight and fills the archive in the order of the
//! inputs.
//!
//! The writer decides and the caller acts. `submit` and `finish` open an
//! exchange: each answers with an `Action`, the caller does what it says and
//! reports with `spawned`, `exited`, `loaded` or `removed`, which answer with
//! the next action, until the answer is `Next` or `Done`. A caller that could
//! not do what was asked says so with `failed`, which ends the run. After
//! every call the caller sends what `take_output` hands over to the sink.
//! When the run is over, whether it succeeded or not, `release` hands over
//! the end of the archive.

use crate::bytes::copy;
use crate::model::{
    lemma_step_valid, Event, Job, Pipeline, PipelineError, Stage, Step,
};
use crate::names::{
    digit_width, entry_name, lemma_name_fits, needs_conversion, pad_width, WIDTH_LIMIT,
};
use crate::tar::{archive_bytes, end_marker, entry_bytes, fits, SimpleTarArchive};
use crate::workdir::TempDir;
use std::collections::VecDeque;
use vstd::prelude::*;

verus! {

/// A job in flight. In both cases the path is that of the file which goes
/// into the archive, and the number is the sequence index of the job.
#[derive(Debug, PartialEq, Eq)]
pub enum CbtWriterJob {
    /// The input goes into the archive as it is.
    Copy(Vec<u8>, usize),
    /// A converter writes the file, in the working directory. The caller keeps
    /// the handle of that converter under the job's index.
    Convert(Vec<u8>, usize),
}

impl View for CbtWriterJob {
    type V = Job;

    open spec fn view(&self) -> Job {
        match self {
            CbtWriterJob::Copy(path, index) => Job {
                convert: false,
                path: path@,
                index: *index as nat,
            },
            CbtWriterJob::Convert(path, index) => Job {
                convert: true,
                path: path@,
                index: *index as nat,
            },
        }
    }
}

/// What the caller is asked to do next.
#[derive(Debug, PartialEq, Eq)]
pub enum Action {
    /// Hand over the next input with `submit`, or call `finish`.
    Next,
    /// Start the converter from `input` to `output` and keep its handle under
    /// `index`, then call `spawned`.
    Spawn { input: Vec<u8>, output: Vec<u8>, index: usize },
    /// Wait for the converter of job `index`, then call `exited`.
    Wait { index: usize },
    /// Read the file at `path`, then call `loaded` with its bytes.
    Read { path: Vec<u8> },
    /// Remove the file at `path`, then call `removed`.
    Remove { path: Vec<u8> },
    /// Every input is in the archive: call `release`.
    Done,
}

impl View for Action {
    type V = Step;

    open spec fn view(&self) -> Step {
        match self {
            Action::Next => Step::Next,
            Action::Spawn { input, output, index } => Step::Spawn {
                input: input@,
                output: output@,
                index: *index as nat,
            },
            Action::Wait { index } => Step::Wait { index: *index as nat },
            Action::Read { path } => Step::Read { path: path@ },
            Action::Remove { path } => Step::Remove { path: path@ },
            Action::Done => Step::Done,
        }
    }
}

/// An answer of the writer as the model sees it.
pub open spec fn answer(result: Result<Action, PipelineError>) -> Result<Step, PipelineError> {
    match result {
        Ok(action) => Ok(action@),
        Err(error) => Err(error),
    }
}

/// The jobs of a queue as the model sees them.
pub open spec fn jobs_view(queue: Seq<CbtWriterJob>) -> Seq<Job> {
    queue.map_values(|job: CbtWriterJob| job@)
}

/// The writer of one archive.
pub struct CbtWriter {
    tar: SimpleTarArchive,
    jobs: VecDeque<CbtWriterJob>,
    index: usize,
    padding: usize,
    processes: usize,
    work_dir: TempDir,
    stage: Stage,
    held: Option<Vec<u8>>,
    draining: bool,
    inputs: Ghost<Seq<Seq<u8>>>,
    sources: Ghost<Seq<Seq<u8>>>,
}

impl View for CbtWriter {
    type V = Pipeline;

    closed spec fn view(&self) -> Pipeline {
        Pipeline {
            entries: self.tar.entries(),
            sources: self.sources@,
            jobs: jobs_view(self.jobs@),
            next: self.index as nat,
            width: self.padding as nat,
            ceiling: self.processes as nat,
            work_dir: self.work_dir@,
            stage: self.stage,
            held: match self.held {
                Some(path) => Some(path@),
                None => None,
            },
            draining: self.draining,
            inputs: self.inputs@,
        }
    }
}

impl CbtWriter {
    /// The bytes of the archive that the caller has taken already.
    pub closed spec fn sent(&self) -> Seq<u8> {
        self.tar.sent()
    }

    /// The bytes of the archive that wait to be taken.
    pub closed spec fn pending(&self) -> Seq<u8> {
        self.tar.pending()
    }

    /// The writer is in a valid state, and the bytes of the archive, taken or
    /// not, are those of the entries written so far.
    pub open spec fn wf(&self) -> bool {
        &&& self@.valid()
        &&& self.sent() + self.pending() == archive_bytes(self@.entries)
    }

    /// A writer for names padded to `padding` digits, with at most `processes`
    /// jobs in flight, whose conversions are written into `work_dir`.
    ///
    /// A padding of more than `WIDTH_LIMIT` digits is refused, since entry
    /// names would not fit the archive, and so is a ceiling of zero.
    pub fn new(padding: usize, processes: usize, work_dir: TempDir) -> (made: Result<
        Self,
        PipelineError,
    >)
        ensures
            match made {
                Ok(writer) => {
                    &&& padding <= WIDTH_LIMIT
                    &&& processes >= 1
                    &&& writer.wf()
                    &&& writer@ == Pipeline::start(padding as nat, processes as nat, work_dir@)
                    &&& writer.sent() == Seq::<u8>::empty()
                    &&& writer.pending() == Seq::<u8>::empty()
                },
                Err(error) => if padding > WIDTH_LIMIT {
                    error == PipelineError::NameTooLong
                } else {
                    processes == 0 && error == PipelineError::NoCapacity
                },
            },
    {
        if padding > WIDTH_LIMIT {
            return Err(PipelineError::NameTooLong);
        }
        if processes == 0 {
            return Err(PipelineError::NoCapacity);
        }
        let writer = CbtWriter {
            tar: SimpleTarArchive::new(),
            jobs: VecDeque::new(),
            index: 1,
            padding,
            processes,
            work_dir,
            stage: Stage::Ready,
            held: None,
            draining: false,
            inputs: Ghost(Seq::empty()),
            sources: Ghost(Seq::empty()),
        };
        proof {
            assert(writer@ =~= Pipeline::start(padding as nat, processes as nat, work_dir@));
            assert(writer.sent() + writer.pending() =~= archive_bytes(writer@.entries));
        }
        Ok(writer)
    }

    /// A writer for `total` inputs: the padding of the names is the number of
    /// decimal digits of `total`, fixed here once and for all entries, so
    /// that the names of the entries 1 to `total` have one length. Only a
    /// ceiling of zero is refused.
    pub fn for_inputs(total: usize, processes: usize, work_dir: TempDir) -> (made: Result<
        Self,
        PipelineError,
    >)
        ensures
            match made {
                Ok(writer) => {
                    &&& processes >= 1
                    &&& writer.wf()
                    &&& writer@ == Pipeline::start(
                        digit_width(total as nat),
                        processes as nat,
                        work_dir@,
                    )
                    &&& writer.sent() == Seq::<u8>::empty()
                    &&& writer.pending() == Seq::<u8>::empty()
                },
                Err(error) => processes == 0 && error == PipelineError::NoCapacity,
            },
    {
        Self::new(pad_width(total), processes, work_dir)
    }

    /// What the writer waits for.
    pub fn stage(&self) -> (stage: Stage)
        ensures
            stage == self@.stage,
    {
        self.stage
    }

    /// How many jobs are in flight.
    pub fn in_flight(&self) -> (count: usize)
        ensures
            count == self@.jobs.len(),
    {
        self.jobs.len()
    }

    /// The oldest job in flight: the one that will be flushed next.
    pub fn oldest(&self) -> (job: Option<&CbtWriterJob>)
        ensures
            match job {
                Some(head) => self@.jobs.len() > 0 && head@ == self@.jobs[0],
                None => self@.jobs.len() == 0,
            },
    {
        if self.jobs.len() > 0 {
            Some(&self.jobs[0])
        } else {
            None
        }
    }

    /// The working directory.
    pub fn work_dir(&self) -> (dir: &TempDir)
        ensures
            dir@ == self@.work_dir,
    {
        &self.work_dir
    }

    fn begin_flush(&mut self) -> (action: Action)
        requires
            old(self).jobs@.len() >= 1,
        ensures
            final(self)@ == old(self)@.begin_flush().0,
            action@ == old(self)@.begin_flush().1,
            final(self).tar == old(self).tar,
    {
        let (stage, action) = match &self.jobs[0] {
            CbtWriterJob::Convert(_, index) => (Stage::Waiting, Action::Wait { index: *index }),
            CbtWriterJob::Copy(path, _) => (
                Stage::Reading,
                Action::Read { path: copy(path.as_slice()) },
            ),
        };
        self.stage = stage;
        assert(final(self)@ =~= old(self)@.begin_flush().0);
        action
    }

    fn enqueue(&mut self, input: Vec<u8>) -> (action: Action)
        requires
            old(self).index < usize::MAX,
            old(self).held is None,
        ensures
            final(self)@ == old(self)@.enqueue(input@).0,
            action@ == old(self)@.enqueue(input@).1,
            final(self).tar == old(self).tar,
    {
        let index = self.index;
        let action = if needs_conversion(input.as_slice()) {
            let name = entry_name(index, self.padding);
            let output = self.work_dir.join(name.as_slice());
            self.jobs.push_back(CbtWriterJob::Convert(copy(output.as_slice()), index));
            self.stage = Stage::Spawning;
            Action::Spawn { input, output, index }
        } else {
            self.jobs.push_back(CbtWriterJob::Copy(copy(input.as_slice()), index));
            self.stage = Stage::Ready;
            Action::Next
        };
        self.index = index + 1;
        proof {
            assert(jobs_view(self.jobs@) =~= jobs_view(old(self).jobs@).push(
                old(self)@.enqueue(input@).0.jobs.last(),
            ));
            assert(final(self)@ =~= old(self)@.enqueue(input@).0);
        }
        action
    }

    fn proceed(&mut self) -> (action: Action)
        requires
            old(self).processes >= 1,
            old(self).held is Some ==> old(self).index < usize::MAX,
        ensures
            final(self)@ == old(self)@.proceed().0,
            action@ == old(self)@.proceed().1,
            final(self).tar == old(self).tar,
    {
        if self.held.is_some() {
            if self.jobs.len() >= self.processes {
                self.begin_flush()
            } else {
                let input = self.held.take().unwrap();
                self.enqueue(input)
            }
        } else if !self.draining {
            self.stage = Stage::Ready;
            assert(final(self)@ =~= old(self)@.proceed().0);
            Action::Next
        } else if self.jobs.len() == 0 {
            self.stage = Stage::Finished;
            assert(final(self)@ =~= old(self)@.proceed().0);
            Action::Done
        } else {
            self.begin_flush()
        }
    }

    /// Takes the next input. It is queued at once if there is room; else the
    /// oldest job is flushed first, and the input is queued when that is done.
    /// Refused while the writer waits for something else, or when no index is
    /// left.
    pub fn submit(&mut self, path: &[u8]) -> (next: Result<Action, PipelineError>)
        requires
            old(self).wf(),
        ensures
            final(self).wf(),
            final(self)@ == old(self)@.step(Event::Submit(path@)).0,
            answer(next) == old(self)@.step(Event::Submit(path@)).1,
            final(self).sent() == old(self).sent(),
            final(self).pending() == old(self).pending(),
    {
        proof {
            lemma_step_valid(self@, Event::Submit(path@));
        }
        let idle = match self.stage {
            Stage::Ready => true,
            Stage::Finished => true,
            _ => false,
        };
        if !idle {
            return Err(PipelineError::OutOfTurn);
        }
        if self.index == usize::MAX {
            return Err(PipelineError::TooManyInputs);
        }
        self.held = Some(copy(path));
        self.draining = false;
        proof {
            self.inputs@ = self.inputs@.push(path@);
        }
        Ok(self.proceed())
    }

    /// Takes word that there are no more inputs: the jobs in flight are
    /// flushed, oldest first, until none is left. On a writer that has
    /// finished already it changes nothing and answers `Done` again. Refused
    /// while the writer waits for something else.
    pub fn finish(&mut self) -> (next: Result<Action, PipelineError>)
        requires
            old(self).wf(),
        ensures
            final(self).wf(),
            final(self)@ == old(self)@.step(Event::Finish).0,
            answer(next) == old(self)@.step(Event::Finish).1,
            final(self).sent() == old(self).sent(),
            final(self).pending() == old(self).pending(),
    {
        proof {
            lemma_step_valid(self@, Event::Finish);
        }
        match self.stage {
            Stage::Ready => {
                self.draining = true;
                Ok(self.proceed())
            },
            Stage::Finished => Ok(Action::Done),
            _ => Err(PipelineError::OutOfTurn),
        }
    }

    /// Takes word that the caller could not do what it was asked to do, or
    /// could not send the archive. The run is over: the answer is
    /// `OutsideFailure`, and nothing more is written. What was not done is
    /// taken back: an input that waited for room is dropped, and a job whose
    /// converter could not be started leaves the queue and gives its index
    /// back. A writer that was aborted before refuses this too.
    pub fn failed(&mut self) -> (next: Result<Action, PipelineError>)
        requires
            old(self).wf(),
        ensures
            final(self).wf(),
            final(self)@ == old(self)@.step(Event::Failed).0,
            answer(next) == old(self)@.step(Event::Failed).1,
            final(self).sent() == old(self).sent(),
            final(self).pending() == old(self).pending(),
    {
        proof {
            lemma_step_valid(self@, Event::Failed);
        }
        match self.stage {
            Stage::Aborted => Err(PipelineError::OutOfTurn),
            Stage::Spawning => {
                let _ = self.jobs.pop_back();
                self.index = self.index - 1;
                self.stage = Stage::Aborted;
                proof {
                    self.inputs@ = self.inputs@.drop_last();
                    assert(jobs_view(self.jobs@) =~= jobs_view(old(self).jobs@).drop_last());
                    assert(final(self)@ =~= old(self)@.step(Event::Failed).0);
                }
                Err(PipelineError::OutsideFailure)
            },
            _ => {
                if self.held.is_some() {
                    self.held = None;
                    proof {
                        self.inputs@ = self.inputs@.drop_last();
                    }
                }
                self.stage = Stage::Aborted;
                assert(final(self)@ =~= old(self)@.step(Event::Failed).0);
                Err(PipelineError::OutsideFailure)
            },
        }
    }

    /// Takes word that the converter asked for was started.
    pub fn spawned(&mut self) -> (next: Result<Action, PipelineError>)
        requires
            old(self).wf(),
        ensures
            final(self).wf(),
            final(self)@ == old(self)@.step(Event::Spawned).0,
            answer(next) == old(self)@.step(Event::Spawned).1,
            final(self).sent() == old(self).sent(),
            final(self).pending() == old(self).pending(),
    {
        proof {
            lemma_step_valid(self@, Event::Spawned);
        }
        match self.stage {
            Stage::Spawning => {
                self.stage = Stage::Ready;
                assert(final(self)@ =~= old(self)@.step(Event::Spawned).0);
                Ok(Action::Next)
            },
            _ => Err(PipelineError::OutOfTurn),
        }
    }

    /// Takes word of how the converter of the oldest job ended. After a
    /// failure the run is over: the answer is `ConversionFailed`, and nothing
    /// more is written.
    pub fn exited(&mut self, success: bool) -> (next: Result<Action, PipelineError>)
        requires
            old(self).wf(),
        ensures
            final(self).wf(),
            final(self)@ == old(self)@.step(Event::Exited(success)).0,
            answer(next) == old(self)@.step(Event::Exited(success)).1,
            final(self).sent() == old(self).sent(),
            final(self).pending() == old(self).pending(),
    {
        proof {
            lemma_step_valid(self@, Event::Exited(success));
        }
        match self.stage {
            Stage::Waiting => {
                if success {
                    let path = match &self.jobs[0] {
                        CbtWriterJob::Convert(path, _) => copy(path.as_slice()),
                        CbtWriterJob::Copy(path, _) => copy(path.as_slice()),
                    };
                    self.stage = Stage::Reading;
                    assert(final(self)@ =~= old(self)@.step(Event::Exited(success)).0);
                    Ok(Action::Read { path })
                } else {
                    self.stage = Stage::Aborted;
                    assert(final(self)@ =~= old(self)@.step(Event::Exited(success)).0);
                    Err(PipelineError::ConversionFailed)
                }
            },
            _ => Err(PipelineError::OutOfTurn),
        }
    }

    /// Takes the bytes of the file of the oldest job and writes them into the
    /// archive under the name of the job's index. The file of a conversion is
    /// then to be removed; after a copy the writer goes on at once. A file too
    /// large for the archive ends the run with `EntryTooLarge`.
    pub fn loaded(&mut self, contents: &[u8]) -> (next: Result<Action, PipelineError>)
        requires
            old(self).wf(),
        ensures
            final(self).wf(),
            final(self)@ == old(self)@.step(Event::Loaded(contents@)).0,
            answer(next) == old(self)@.step(Event::Loaded(contents@)).1,
            final(self).sent() == old(self).sent(),
            final(self)@.entries.len() == old(self)@.entries.len() ==> final(self).pending() == old(
                self,
            ).pending(),
            final(self)@.entries.len() != old(self)@.entries.len() ==> final(self).pending() == old(
                self,
            ).pending() + entry_bytes(final(self)@.entries.last()),
    {
        proof {
            lemma_step_valid(self@, Event::Loaded(contents@));
        }
        match self.stage {
            Stage::Reading => {
                let ghost head = self@.jobs[0];
                let name = match &self.jobs[0] {
                    CbtWriterJob::Copy(_, index) => entry_name(*index, self.padding),
                    CbtWriterJob::Convert(_, index) => entry_name(*index, self.padding),
                };
                proof {
                    lemma_name_fits(head.index as usize, self.padding as nat);
                }
                if !fits(name.len(), contents.len() as u64) {
                    self.stage = Stage::Aborted;
                    assert(final(self)@ =~= old(self)@.step(Event::Loaded(contents@)).0);
                    return Err(PipelineError::EntryTooLarge);
                }
                let job = self.jobs.pop_front().unwrap();
                assert(job@ == head);
                assert(jobs_view(self.jobs@) =~= jobs_view(old(self).jobs@).drop_first());
                let (path, convert) = match job {
                    CbtWriterJob::Copy(path, _) => (path, false),
                    CbtWriterJob::Convert(path, _) => (path, true),
                };
                proof {
                    self.sources@ = self.sources@.push(path@);
                }
                self.tar.write_file(contents, name.as_slice());
                if convert {
                    self.stage = Stage::Removing;
                    assert(final(self)@ =~= old(self)@.step(Event::Loaded(contents@)).0);
                    Ok(Action::Remove { path })
                } else {
                    Ok(self.proceed())
                }
            },
            _ => Err(PipelineError::OutOfTurn),
        }
    }

    /// Takes word that the file to be removed is gone.
    pub fn removed(&mut self) -> (next: Result<Action, PipelineError>)
        requires
            old(self).wf(),
        ensures
            final(self).wf(),
            final(self)@ == old(self)@.step(Event::Removed).0,
            answer(next) == old(self)@.step(Event::Removed).1,
            final(self).sent() == old(self).sent(),
            final(self).pending() == old(self).pending(),
    {
        proof {
            lemma_step_valid(self@, Event::Removed);
        }
        match self.stage {
            Stage::Removing => Ok(self.proceed()),
            _ => Err(PipelineError::OutOfTurn),
        }
    }

    /// Hands over the bytes of the archive that wait to be sent. The caller
    /// sends them to the sink in the order in which it took them.
    pub fn take_output(&mut self) -> (out: Vec<u8>)
        requires
            old(self).wf(),
        ensures
            final(self).wf(),
            final(self)@ == old(self)@,
            out@ == old(self).pending(),
            final(self).pending() == Seq::<u8>::empty(),
            final(self).sent() == old(self).sent() + old(self).pending(),
    {
        let out = self.tar.take_output();
        assert(final(self)@ =~= old(self)@);
        assert(final(self).sent() + final(self).pending() =~= old(self).sent() + old(
            self,
        ).pending());
        out
    }

    /// Gives the archive up: hands over the bytes that wait to be sent,
    /// followed by the end marker. With what was taken before, they are the
    /// entries written so far and the two closing blocks of zeros.
    pub fn release(self) -> (out: Vec<u8>)
        requires
            self.wf(),
        ensures
            out@ == self.pending() + end_marker(),
            self.sent() + out@ == archive_bytes(self@.entries) + end_marker(),
    {
        self.tar.finish()
    }
}

} // verus!
