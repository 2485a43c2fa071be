//! The decisions of running one job: what to do before its shell starts,
//! given what the file system says of its files, and what its exit means.
use crate::error::{ZinnError, ZinnResult};
use crate::job::InnerJobRealization;
use crate::queue::JobState;
use crate::text::views;
use vstd::prelude::*;

verus! {

/// How jobs are run.
pub struct Options {
    /// Promote every line of a job's output to the persistent log.
    pub verbose: bool,
    /// Ignore the modification-time skip check.
    pub force: bool,
    /// Show each rendered script before running it.
    pub trace: bool,
    /// Run nothing; every job counts as finished.
    pub dry_run: bool,
}

/// What to do with a job before its shell starts.
pub enum Preflight {
    /// Do not run it; it counts as finished. `trace`: show its script.
    DryRun { trace: bool },
    /// Its outputs are up to date: it counts as skipped.
    Skip,
    /// Start its shell. `trace`: show its script first.
    Execute { trace: bool },
}

/// How a job's shell ended.
pub enum ChildExit {
    /// It exited with this code.
    Code(i32),
    /// A signal terminated it.
    Signaled,
}

/// The modification time of a file, `None` where it does not exist.
pub type FileTime = Option<u128>;

pub open spec fn all_exist(files: Seq<FileTime>) -> bool {
    forall|i: int| 0 <= i < files.len() ==> (#[trigger] files[i]) is Some
}

/// `files[k]` is the first file that does not exist.
pub open spec fn first_absent(files: Seq<FileTime>, k: int) -> bool {
    &&& 0 <= k < files.len()
    &&& files[k] is None
    &&& forall|j: int| 0 <= j < k ==> (#[trigger] files[j]) is Some
}

/// A file that exists at time `t` or later, where `time` is `Some(t)`.
pub open spec fn not_older(out: u128, time: FileTime) -> bool {
    time matches Some(t) ==> out >= t
}

/// Every output exists and none is older than any input.
pub open spec fn up_to_date(inputs: Seq<FileTime>, outputs: Seq<FileTime>) -> bool {
    &&& all_exist(outputs)
    &&& forall|o: int, i: int|
        0 <= o < outputs.len() && 0 <= i < inputs.len() ==> not_older(
            (#[trigger] outputs[o])->0,
            #[trigger] inputs[i],
        )
}

/// A run that is not a dry run may skip the job: it is not forced, the job
/// declares inputs and outputs, and its outputs are up to date.
pub open spec fn may_skip(force: bool, inputs: Seq<FileTime>, outputs: Seq<FileTime>) -> bool {
    !force && inputs.len() > 0 && outputs.len() > 0 && up_to_date(inputs, outputs)
}

fn first_missing_file(files: &Vec<FileTime>) -> (r: Option<usize>)
    ensures
        match r {
            Some(k) => first_absent(files@, k as int),
            None => all_exist(files@),
        },
{
    let mut i: usize = 0;
    while i < files.len()
        invariant
            i <= files.len(),
            forall|j: int| 0 <= j < i ==> (#[trigger] files@[j]) is Some,
        decreases files.len() - i,
    {
        if files[i].is_none() {
            return Some(i);
        }
        i += 1;
    }
    None
}

/// Whether every output exists and none is older than any input.
pub fn outputs_up_to_date(inputs: &Vec<FileTime>, outputs: &Vec<FileTime>) -> (r: bool)
    ensures
        r == up_to_date(inputs@, outputs@),
{
    let mut o: usize = 0;
    while o < outputs.len()
        invariant
            o <= outputs.len(),
            forall|p: int| 0 <= p < o ==> (#[trigger] outputs@[p]) is Some,
            forall|p: int, i: int|
                0 <= p < o && 0 <= i < inputs.len() ==> not_older(
                    (#[trigger] outputs@[p])->0,
                    #[trigger] inputs@[i],
                ),
        decreases outputs.len() - o,
    {
        let out_time = match outputs[o] {
            Some(t) => t,
            None => return false,
        };
        let mut i: usize = 0;
        while i < inputs.len()
            invariant
                i <= inputs.len(),
                o < outputs.len(),
                outputs@[o as int] == Some(out_time),
                forall|j: int| 0 <= j < i ==> not_older(out_time, #[trigger] inputs@[j]),
            decreases inputs.len() - i,
        {
            if let Some(in_time) = inputs[i] {
                if in_time > out_time {
                    return false;
                }
            }
            i += 1;
        }
        o += 1;
    }
    true
}

/// Decides what to do with `job` before its shell starts. `inputs` and
/// `outputs` give the modification time of each of the job's input and
/// output files, in order.
pub fn preflight(
    job: &InnerJobRealization,
    options: &Options,
    inputs: &Vec<FileTime>,
    outputs: &Vec<FileTime>,
) -> (r: ZinnResult<Preflight>)
    requires
        inputs.len() == job@.inputs.len(),
        outputs.len() == job@.outputs.len(),
    ensures
        options.dry_run ==> (r matches Ok(Preflight::DryRun { trace }) && trace == options.trace),
        !options.dry_run && !all_exist(inputs@) ==> exists|k: int|
            first_absent(inputs@, k) && (r matches Err(ZinnError::InputFileError(f)) && f@
                == job@.inputs[k]),
        !options.dry_run && all_exist(inputs@) && may_skip(options.force, inputs@, outputs@)
            ==> r matches Ok(Preflight::Skip),
        !options.dry_run && all_exist(inputs@) && !may_skip(options.force, inputs@, outputs@)
            ==> (r matches Ok(Preflight::Execute { trace }) && trace == options.trace),
{
    if options.dry_run {
        return Ok(Preflight::DryRun { trace: options.trace });
    }
    match first_missing_file(inputs) {
        Some(k) => {
            let ins = job.inputs();
            assert(views(ins@).len() == ins@.len());
            let name = ins[k].clone();
            return Err(ZinnError::InputFileError(name));
        },
        None => {},
    }
    if !options.force && inputs.len() > 0 && outputs.len() > 0 && outputs_up_to_date(inputs, outputs) {
        return Ok(Preflight::Skip);
    }
    Ok(Preflight::Execute { trace: options.trace })
}

/// What the end of a job's shell means: a non-zero exit or a signal fails
/// the job; after a successful exit, each output must exist (`outputs_exist`
/// says, in order, whether it does).
pub fn conclude(job: &InnerJobRealization, exit: ChildExit, outputs_exist: &Vec<bool>) -> (r: ZinnResult<JobState>)
    requires
        outputs_exist.len() == job@.outputs.len(),
    ensures
        (exit matches ChildExit::Code(c) && c != 0) ==> (r matches Err(ZinnError::ChildFailed(e)) && exit == ChildExit::Code(e)),
        exit is Signaled ==> r matches Err(ZinnError::ChildSignaled),
        exit == ChildExit::Code(0) && (forall|i: int|
            0 <= i < outputs_exist.len() ==> #[trigger] outputs_exist@[i]) ==> r matches Ok(
            JobState::Finished,
        ),
        exit == ChildExit::Code(0) && (exists|i: int|
            0 <= i < outputs_exist.len() && !#[trigger] outputs_exist@[i]) ==> exists|k: int|
            0 <= k < outputs_exist.len() && !outputs_exist@[k] && (forall|j: int|
                0 <= j < k ==> #[trigger] outputs_exist@[j]) && (r matches Err(
                ZinnError::OutputFileError(f),
            ) && f@ == job@.outputs[k]),
{
    match &exit {
        ChildExit::Code(c) => {
            if *c != 0 {
                return Err(ZinnError::ChildFailed(*c));
            }
        },
        ChildExit::Signaled => return Err(ZinnError::ChildSignaled),
    }
    let mut i: usize = 0;
    while i < outputs_exist.len()
        invariant
            i <= outputs_exist.len(),
            exit == ChildExit::Code(0),
            outputs_exist.len() == job@.outputs.len(),
            forall|j: int| 0 <= j < i ==> #[trigger] outputs_exist@[j],
        decreases outputs_exist.len() - i,
    {
        if !outputs_exist[i] {
            let outs = job.outputs();
            assert(views(outs@).len() == outs@.len());
            let name = outs[i].clone();
            assert(name@ == views(outs@)[i as int]);
            return Err(ZinnError::OutputFileError(name));
        }
        i += 1;
    }
    Ok(JobState::Finished)
}

/// The state that a run's result reports to the queue: its state, or
/// `Failed` for an error.
pub fn outcome_state(result: &ZinnResult<JobState>) -> (r: JobState)
    ensures
        match result {
            Ok(s) => r == *s,
            Err(_) => r == JobState::Failed,
        },
{
    match result {
        Ok(s) => *s,
        Err(_) => JobState::Failed,
    }
}

/// The skip decision is stable and undone by touching an input: where the
/// outputs are up to date, an unforced run of a job with inputs and outputs
/// skips it; once input `k` is given a time later than every output's, the
/// same run no longer may skip it.
pub proof fn lemma_touch_input_reruns(
    inputs: Seq<FileTime>,
    outputs: Seq<FileTime>,
    k: int,
    t: u128,
)
    requires
        inputs.len() > 0,
        outputs.len() > 0,
        up_to_date(inputs, outputs),
        0 <= k < inputs.len(),
        forall|o: int| 0 <= o < outputs.len() ==> ((#[trigger] outputs[o]) matches Some(m) && m < t),
    ensures
        may_skip(false, inputs, outputs),
        !may_skip(false, inputs.update(k, Some(t)), outputs),
        !may_skip(true, inputs, outputs),
{
    let touched = inputs.update(k, Some(t));
    assert(outputs[0] matches Some(m) && m < t);
    assert(!not_older(outputs[0]->0, touched[k]));
}

} // verus!
