//! Whole runs of the pipeline: what the archive holds in the end when every
//! converter succeeds and every file fits.
//!
//! A run is told here as the model sees it. The caller submits its inputs one
//! after the other, answers every request of the pipeline, and at last
//! announces the end of the inputs. The files are a function from paths to
//! bytes: what the caller finds at a path when it is asked to read it.

use crate::model::{lemma_step_valid, planned, Event, Pipeline, Stage};
use crate::names::{
    digit_width, lemma_machine_widths, lemma_names_same_length, numbered_name, WIDTH_LIMIT,
};
use crate::tar::{Entry, SIZE_LIMIT};
use vstd::prelude::*;

verus! {

/// Whether every file fits an archive.
pub open spec fn all_fit(files: spec_fn(Seq<u8>) -> Seq<u8>) -> bool {
    forall|path: Seq<u8>| (#[trigger] files(path)).len() < SIZE_LIMIT
}

/// Whether the pipeline waits for an answer to a request, not for an input.
pub open spec fn awaits_reply(s: Pipeline) -> bool {
    s.stage == Stage::Spawning || s.stage == Stage::Waiting || s.stage == Stage::Reading || s.stage
        == Stage::Removing
}

/// The answer of a caller for whom everything works: the converter starts,
/// the converter succeeds, the file holds what `files` says, the file is removed.
pub open spec fn reply(s: Pipeline, files: spec_fn(Seq<u8>) -> Seq<u8>) -> Event {
    match s.stage {
        Stage::Spawning => Event::Spawned,
        Stage::Waiting => Event::Exited(true),
        Stage::Reading => Event::Loaded(files(s.jobs[0].path)),
        _ => Event::Removed,
    }
}

/// A bound on the answers that the pipeline still needs before it asks for an
/// input again or is finished: three for each job in flight, and a few more.
pub open spec fn owed(s: Pipeline) -> nat {
    3 * s.jobs.len() + if s.held is Some {
        3nat
    } else {
        0nat
    } + match s.stage {
        Stage::Spawning => 1nat,
        Stage::Waiting => 1nat,
        Stage::Removing => 2nat,
        _ => 0nat,
    }
}

/// The state after at most `limit` answers, or fewer if the pipeline waits
/// for none any more.
pub open spec fn settle(s: Pipeline, files: spec_fn(Seq<u8>) -> Seq<u8>, limit: nat) -> Pipeline
    decreases limit,
{
    if limit == 0 || !awaits_reply(s) {
        s
    } else {
        settle(s.step(reply(s, files)).0, files, (limit - 1) as nat)
    }
}

/// The state in which the exchange that is under way has come to its end.
pub open spec fn settled(s: Pipeline, files: spec_fn(Seq<u8>) -> Seq<u8>) -> Pipeline {
    settle(s, files, owed(s))
}

/// The state after the inputs were submitted one after the other, each
/// exchange brought to its end.
pub open spec fn submitted(
    s: Pipeline,
    inputs: Seq<Seq<u8>>,
    files: spec_fn(Seq<u8>) -> Seq<u8>,
) -> Pipeline
    decreases inputs.len(),
{
    if inputs.len() == 0 {
        s
    } else {
        settled(
            submitted(s, inputs.drop_last(), files).step(Event::Submit(inputs.last())).0,
            files,
        )
    }
}

/// The state at the end of a whole run: a fresh pipeline, the inputs
/// submitted one after the other, the end of the inputs announced.
pub open spec fn completed(
    width: nat,
    ceiling: nat,
    work_dir: Seq<u8>,
    inputs: Seq<Seq<u8>>,
    files: spec_fn(Seq<u8>) -> Seq<u8>,
) -> Pipeline {
    settled(
        submitted(Pipeline::start(width, ceiling, work_dir), inputs, files).step(Event::Finish).0,
        files,
    )
}

/// Whether every entry holds the bytes of the file that was read for it.
pub open spec fn faithful(s: Pipeline, files: spec_fn(Seq<u8>) -> Seq<u8>) -> bool {
    forall|i: int|
        0 <= i < s.entries.len() ==> (#[trigger] s.entries[i]).content == files(s.sources[i])
}

/// An answer of a caller for whom everything works is never refused, keeps
/// the entries faithful, and brings the end of the exchange nearer.
proof fn lemma_reply_advances(s: Pipeline, files: spec_fn(Seq<u8>) -> Seq<u8>)
    requires
        s.valid(),
        all_fit(files),
        faithful(s, files),
        awaits_reply(s),
    ensures
        ({
            let (after, answer) = s.step(reply(s, files));
            &&& answer is Ok
            &&& after.valid()
            &&& faithful(after, files)
            &&& after.stage != Stage::Aborted
            &&& after.inputs == s.inputs
            &&& after.draining == s.draining
            &&& owed(after) < owed(s)
        }),
{
    let after = s.step(reply(s, files)).0;
    lemma_step_valid(s, reply(s, files));
    if s.stage == Stage::Reading {
        let content = files(s.jobs[0].path);
        assert(content.len() < SIZE_LIMIT);
        assert forall|i: int|
            0 <= i < after.entries.len() implies (#[trigger] after.entries[i]).content == files(
            after.sources[i],
        ) by {
            if i < s.entries.len() {
                assert(after.entries[i] == s.entries[i]);
                assert(after.sources[i] == s.sources[i]);
            }
        }
    }
}

/// Every exchange comes to its end: after no more answers than are owed, the
/// pipeline asks for the next input, or, when the end of the inputs was
/// announced, is finished. The inputs accepted are the same, and every entry
/// is faithful.
pub proof fn lemma_exchange_ends(s: Pipeline, files: spec_fn(Seq<u8>) -> Seq<u8>, limit: nat)
    requires
        s.valid(),
        all_fit(files),
        faithful(s, files),
        s.stage != Stage::Aborted,
        limit >= owed(s),
    ensures
        ({
            let end = settle(s, files, limit);
            &&& end.valid()
            &&& faithful(end, files)
            &&& end.inputs == s.inputs
            &&& end.stage == if s.draining {
                Stage::Finished
            } else {
                Stage::Ready
            }
        }),
    decreases limit,
{
    if awaits_reply(s) {
        lemma_reply_advances(s, files);
        lemma_exchange_ends(s.step(reply(s, files)).0, files, (limit - 1) as nat);
    }
}

/// Submitting inputs to a pipeline that is ready leaves it ready, with the
/// inputs added to those it had, and every entry faithful.
pub proof fn lemma_submitted(
    s: Pipeline,
    inputs: Seq<Seq<u8>>,
    files: spec_fn(Seq<u8>) -> Seq<u8>,
)
    requires
        s.valid(),
        s.stage == Stage::Ready,
        all_fit(files),
        faithful(s, files),
        s.inputs.len() + inputs.len() + 1 < usize::MAX,
    ensures
        ({
            let end = submitted(s, inputs, files);
            &&& end.valid()
            &&& faithful(end, files)
            &&& end.stage == Stage::Ready
            &&& end.inputs == s.inputs + inputs
            &&& end.width == s.width
            &&& end.work_dir == s.work_dir
        }),
    decreases inputs.len(),
{
    if inputs.len() == 0 {
        assert(s.inputs + inputs =~= s.inputs);
    } else {
        let before = submitted(s, inputs.drop_last(), files);
        lemma_submitted(s, inputs.drop_last(), files);
        let event = Event::Submit(inputs.last());
        let held = before.step(event).0;
        lemma_step_valid(before, event);
        assert(held.inputs == before.inputs.push(inputs.last()));
        assert(held.entries == before.entries && held.sources == before.sources);
        lemma_exchange_ends(held, files, owed(held));
        lemma_settle_configuration(held, files, owed(held));
        assert(s.inputs + inputs =~= (s.inputs + inputs.drop_last()).push(inputs.last()));
    }
}

/// Answers change neither the padding nor the working directory.
pub proof fn lemma_settle_configuration(
    s: Pipeline,
    files: spec_fn(Seq<u8>) -> Seq<u8>,
    limit: nat,
)
    ensures
        settle(s, files, limit).width == s.width,
        settle(s, files, limit).work_dir == s.work_dir,
        settle(s, files, limit).ceiling == s.ceiling,
    decreases limit,
{
    if limit > 0 && awaits_reply(s) {
        lemma_settle_configuration(s.step(reply(s, files)).0, files, (limit - 1) as nat);
    }
}

/// What a whole run leaves in the archive. If every converter succeeds and
/// every file fits, the run finishes, and the archive holds one entry for
/// each input, in the order of the inputs: entry `i` is named by index
/// `i + 1` and holds the bytes of input `i` itself, where it needs no
/// conversion, or else of the file of that index in the working directory.
/// The ceiling has no part in it: how many conversions run at a time, and
/// when each ends, changes nothing in the archive.
pub proof fn lemma_whole_run(
    width: nat,
    ceiling: nat,
    work_dir: Seq<u8>,
    inputs: Seq<Seq<u8>>,
    files: spec_fn(Seq<u8>) -> Seq<u8>,
)
    requires
        1 <= ceiling,
        width <= WIDTH_LIMIT,
        inputs.len() + 1 < usize::MAX,
        all_fit(files),
    ensures
        ({
            let end = completed(width, ceiling, work_dir, inputs, files);
            &&& end.stage == Stage::Finished
            &&& end.inputs == inputs
            &&& end.entries.len() == inputs.len()
            &&& forall|i: int|
                0 <= i < inputs.len() ==> #[trigger] end.entries[i] == (Entry {
                    name: numbered_name((i + 1) as nat, width),
                    content: files(planned(inputs[i], (i + 1) as nat, width, work_dir).path),
                })
        }),
{
    let start = Pipeline::start(width, ceiling, work_dir);
    lemma_submitted(start, inputs, files);
    let fed = submitted(start, inputs, files);
    assert(start.inputs + inputs =~= inputs);
    let draining = fed.step(Event::Finish).0;
    lemma_step_valid(fed, Event::Finish);
    assert(draining.entries == fed.entries && draining.sources == fed.sources);
    lemma_exchange_ends(draining, files, owed(draining));
    lemma_settle_configuration(draining, files, owed(draining));
    let end = completed(width, ceiling, work_dir, inputs, files);
    assert forall|i: int| 0 <= i < inputs.len() implies #[trigger] end.entries[i] == (Entry {
        name: numbered_name((i + 1) as nat, width),
        content: files(planned(inputs[i], (i + 1) as nat, width, work_dir).path),
    }) by {
        assert(end.entries[i].content == files(end.sources[i]));
        assert(end.sources[i] == planned(
            end.inputs[i],
            (i + 1) as nat,
            end.width,
            end.work_dir,
        ).path);
    }
}

/// In a whole run with the padding taken from the number of inputs, the
/// entries are named by the indices from 1 to that number, each written with
/// as many digits as the number has.
pub proof fn lemma_whole_run_names(
    ceiling: nat,
    work_dir: Seq<u8>,
    inputs: Seq<Seq<u8>>,
    files: spec_fn(Seq<u8>) -> Seq<u8>,
)
    requires
        1 <= ceiling,
        inputs.len() + 1 < usize::MAX,
        all_fit(files),
    ensures
        ({
            let width = digit_width(inputs.len());
            let end = completed(width, ceiling, work_dir, inputs, files);
            &&& width <= WIDTH_LIMIT
            &&& end.entries.len() == inputs.len()
            &&& forall|i: int|
                0 <= i < inputs.len() ==> {
                    &&& (#[trigger] end.entries[i]).name == numbered_name((i + 1) as nat, width)
                    &&& end.entries[i].name.len() == width + 5
                }
        }),
{
    let width = digit_width(inputs.len());
    lemma_machine_widths(inputs.len() as usize, 0);
    lemma_whole_run(width, ceiling, work_dir, inputs, files);
    let end = completed(width, ceiling, work_dir, inputs, files);
    assert forall|i: int| 0 <= i < inputs.len() implies {
        &&& (#[trigger] end.entries[i]).name == numbered_name((i + 1) as nat, width)
        &&& end.entries[i].name.len() == width + 5
    } by {
        lemma_names_same_length((i + 1) as nat, inputs.len());
    }
}

} // verus!
