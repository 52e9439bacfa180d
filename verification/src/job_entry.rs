//! Jobs: what is asked of a unit, how far it has got, and how it ended.
use crate::unit::{UnitActiveState, UnitId, UnitNotifyFlags, UNIT_NOTIFY_RELOAD_FAILURE};
use vstd::prelude::*;

verus! {

/// Why the engine turned a request down.
#[derive(Clone, Copy, Debug, PartialEq, Eq, Structural)]
pub enum JobErrno {
    /// The request contradicts itself, the unit's configuration, or queued work that
    /// it may not touch.
    JobErrInput,
    /// No job has the identity given.
    JobErrNotExisted,
    /// The engine found its own state in a shape that it never leaves it in, or has no
    /// job identity left to give out.
    JobErrInternel,
    /// The job is under way, and a job under way cannot be taken back.
    JobErrNotSupported,
}

/// The operation that a job asks of its unit.
#[derive(Clone, Copy, Debug, PartialEq, Eq, Structural)]
pub enum JobKind {
    JobStart,
    JobStop,
    JobReload,
    JobRestart,
    JobVerify,
    JobNop,
}

/// How a job ended.
#[derive(Clone, Copy, Debug, PartialEq, Eq, Structural)]
pub enum JobResult {
    JobDone,
    JobCancelled,
    JobTimeOut,
    JobFailed,
    JobDependency,
    JobSkipped,
}

/// How far a job has got. A job that ended is gone from its table and has no stage.
#[derive(Clone, Copy, Debug, PartialEq, Eq, Structural)]
pub enum JobStage {
    /// Queued.
    JobWait,
    /// Triggered: handed to the unit.
    JobRunning,
}

/// Whether a triggered job is held up.
#[derive(Clone, Copy, Debug, PartialEq, Eq, Structural)]
pub enum JobHold {
    /// Not held up.
    JobFree,
    /// The unit could not take the job yet; the job waits for the unit to move.
    JobPaused,
    /// The unit has moved since it put the job off; the job is due again.
    JobResumed,
}

/// What a unit answers when a job is handed to it, unless it takes the job and
/// reports later.
#[derive(Clone, Copy, Debug, PartialEq, Eq, Structural)]
pub enum UnitActionError {
    /// Not now: the unit is busy with something that has to end first.
    UnitActionEAgain,
    /// Nothing to do: the unit is already where the job would take it.
    UnitActionEAlready,
    /// The unit is in no state to which the job applies.
    UnitActionEBadR,
    /// Something that the unit needs is missing.
    UnitActionENolink,
    /// The unit did not answer in time.
    UnitActionETimedOut,
    /// The unit tried and failed.
    UnitActionEFailed,
}

/// A request: one operation on one unit.
#[derive(Clone, Copy, Debug, PartialEq, Eq, Structural)]
pub struct JobConf {
    pub unit: UnitId,
    pub kind: JobKind,
}

impl JobConf {
    pub fn new(unit: UnitId, kind: JobKind) -> (conf: JobConf)
        ensures
            conf == (JobConf { unit, kind }),
    {
        JobConf { unit, kind }
    }

    pub fn get_unit(&self) -> (unit: UnitId)
        ensures
            unit == self.unit,
    {
        self.unit
    }

    pub fn get_kind(&self) -> (kind: JobKind)
        ensures
            kind == self.kind,
    {
        self.kind
    }
}

/// A job as its table keeps it.
#[derive(Clone, Copy, Debug, PartialEq, Eq, Structural)]
pub struct Job {
    pub id: u32,
    pub unit: UnitId,
    /// The operation that was asked for.
    pub kind: JobKind,
    /// The operation that the unit is asked to do next.
    pub run_kind: JobKind,
    pub stage: JobStage,
    pub hold: JobHold,
}

/// A copy of what callers may know of a job; changing it changes nothing in the engine.
#[derive(Clone, Copy, Debug, PartialEq, Eq, Structural)]
pub struct JobInfo {
    pub id: u32,
    pub unit: UnitId,
    pub kind: JobKind,
    pub run_kind: JobKind,
    pub stage: JobStage,
}

impl Job {
    /// The request that the job stands for.
    pub open spec fn conf(&self) -> JobConf {
        JobConf { unit: self.unit, kind: self.kind }
    }

    pub open spec fn is_waiting(&self) -> bool {
        self.stage == JobStage::JobWait
    }

    pub open spec fn is_running(&self) -> bool {
        self.stage == JobStage::JobRunning
    }

    /// The snapshot of the job.
    pub open spec fn info(&self) -> JobInfo {
        JobInfo {
            id: self.id,
            unit: self.unit,
            kind: self.kind,
            run_kind: self.run_kind,
            stage: self.stage,
        }
    }

    /// The job as it is when a transaction creates it: queued, about to do the first
    /// step of what was asked.
    pub open spec fn fresh(id: u32, conf: JobConf) -> Job {
        Job {
            id,
            unit: conf.unit,
            kind: conf.kind,
            run_kind: job_rkind_new_spec(conf.kind),
            stage: JobStage::JobWait,
            hold: JobHold::JobFree,
        }
    }

    pub fn new(id: u32, conf: &JobConf) -> (job: Job)
        ensures
            job == Job::fresh(id, *conf),
    {
        Job {
            id,
            unit: conf.unit,
            kind: conf.kind,
            run_kind: job_rkind_new(conf.kind),
            stage: JobStage::JobWait,
            hold: JobHold::JobFree,
        }
    }
}

impl JobInfo {
    pub fn map(job: &Job) -> (info: JobInfo)
        ensures
            info == job.info(),
    {
        JobInfo {
            id: job.id,
            unit: job.unit,
            kind: job.kind,
            run_kind: job.run_kind,
            stage: job.stage,
        }
    }
}

/// The first step of an operation: a restart begins by stopping, every other operation
/// is its own first step.
pub open spec fn job_rkind_new_spec(kind: JobKind) -> JobKind {
    if kind == JobKind::JobRestart {
        JobKind::JobStop
    } else {
        kind
    }
}

#[verifier::when_used_as_spec(job_rkind_new_spec)]
pub fn job_rkind_new(kind: JobKind) -> (run_kind: JobKind)
    ensures
        run_kind == job_rkind_new_spec(kind),
{
    if kind == JobKind::JobRestart {
        JobKind::JobStop
    } else {
        kind
    }
}

/// Two operations on one unit contradict each other when exactly one of them stops
/// the unit. A no-op contradicts nothing.
pub open spec fn job_is_conflict_spec(a: JobKind, b: JobKind) -> bool {
    a != JobKind::JobNop && b != JobKind::JobNop && ((a == JobKind::JobStop) != (b
        == JobKind::JobStop))
}

#[verifier::when_used_as_spec(job_is_conflict_spec)]
pub fn job_is_conflict(a: JobKind, b: JobKind) -> (conflict: bool)
    ensures
        conflict == job_is_conflict_spec(a, b),
{
    a != JobKind::JobNop && b != JobKind::JobNop && ((a == JobKind::JobStop) != (b
        == JobKind::JobStop))
}

/// What the answer of a unit to a job means for the job: the result with which the
/// job has ended, if it has, and whether the job is put off.
///
/// A unit that takes the job ends nothing yet. A unit that says "not now" puts the job
/// off. Every other answer ends the job: "already there" as done, the rest as the
/// failure they name.
pub open spec fn job_trigger_result_spec(reply: Result<(), UnitActionError>) -> (
    Option<JobResult>,
    bool,
) {
    match reply {
        Ok(_) => (None, false),
        Err(UnitActionError::UnitActionEAgain) => (None, true),
        Err(UnitActionError::UnitActionEAlready) => (Some(JobResult::JobDone), false),
        Err(UnitActionError::UnitActionEBadR) => (Some(JobResult::JobSkipped), false),
        Err(UnitActionError::UnitActionENolink) => (Some(JobResult::JobDependency), false),
        Err(UnitActionError::UnitActionETimedOut) => (Some(JobResult::JobTimeOut), false),
        Err(UnitActionError::UnitActionEFailed) => (Some(JobResult::JobFailed), false),
    }
}

#[verifier::when_used_as_spec(job_trigger_result_spec)]
pub fn job_trigger_result(reply: Result<(), UnitActionError>) -> (out: (Option<JobResult>, bool))
    ensures
        out == job_trigger_result_spec(reply),
{
    match reply {
        Ok(_) => (None, false),
        Err(UnitActionError::UnitActionEAgain) => (None, true),
        Err(UnitActionError::UnitActionEAlready) => (Some(JobResult::JobDone), false),
        Err(UnitActionError::UnitActionEBadR) => (Some(JobResult::JobSkipped), false),
        Err(UnitActionError::UnitActionENolink) => (Some(JobResult::JobDependency), false),
        Err(UnitActionError::UnitActionETimedOut) => (Some(JobResult::JobTimeOut), false),
        Err(UnitActionError::UnitActionEFailed) => (Some(JobResult::JobFailed), false),
    }
}

/// What a state change of a unit means for the job that is under way on it: the result
/// with which the job ends, if the change ends it, and whether the change is one that
/// the job itself brought about.
///
/// A start (or a check that the unit is up) is done when the unit is active, goes on
/// while it is activating, and was overtaken if the unit fell back: failed if the unit
/// failed, done if it merely went down. A reload is judged by the flags once the unit
/// is active again. A stop (or the first half of a restart) is done when the unit is
/// down, whether it failed or not, goes on while it is deactivating, and failed if the
/// unit went anywhere else.
pub open spec fn job_process_unit_spec(
    run_kind: JobKind,
    ns: UnitActiveState,
    flags: UnitNotifyFlags,
) -> (Option<JobResult>, bool) {
    match run_kind {
        JobKind::JobStart | JobKind::JobVerify => match ns {
            UnitActiveState::UnitActive => (Some(JobResult::JobDone), true),
            UnitActiveState::UnitActivating => (None, true),
            UnitActiveState::UnitInActive => (Some(JobResult::JobDone), false),
            UnitActiveState::UnitFailed => (Some(JobResult::JobFailed), false),
            _ => (None, false),
        },
        JobKind::JobReload => match ns {
            UnitActiveState::UnitActive => if flags.spec_intersects(UNIT_NOTIFY_RELOAD_FAILURE) {
                (Some(JobResult::JobFailed), true)
            } else {
                (Some(JobResult::JobDone), true)
            },
            UnitActiveState::UnitActivating => (None, true),
            UnitActiveState::UnitInActive => (Some(JobResult::JobDone), false),
            UnitActiveState::UnitFailed => (Some(JobResult::JobFailed), false),
            _ => (None, false),
        },
        JobKind::JobStop | JobKind::JobRestart => match ns {
            UnitActiveState::UnitInActive | UnitActiveState::UnitFailed => (
                Some(JobResult::JobDone),
                true,
            ),
            UnitActiveState::UnitDeActivating => (None, true),
            _ => (Some(JobResult::JobFailed), false),
        },
        JobKind::JobNop => (None, false),
    }
}

#[verifier::when_used_as_spec(job_process_unit_spec)]
pub fn job_process_unit(run_kind: JobKind, ns: UnitActiveState, flags: UnitNotifyFlags) -> (out: (
    Option<JobResult>,
    bool,
))
    ensures
        out == job_process_unit_spec(run_kind, ns, flags),
{
    match run_kind {
        JobKind::JobStart | JobKind::JobVerify => match ns {
            UnitActiveState::UnitActive => (Some(JobResult::JobDone), true),
            UnitActiveState::UnitActivating => (None, true),
            UnitActiveState::UnitInActive => (Some(JobResult::JobDone), false),
            UnitActiveState::UnitFailed => (Some(JobResult::JobFailed), false),
            _ => (None, false),
        },
        JobKind::JobReload => match ns {
            UnitActiveState::UnitActive => if flags.intersects(UNIT_NOTIFY_RELOAD_FAILURE) {
                (Some(JobResult::JobFailed), true)
            } else {
                (Some(JobResult::JobDone), true)
            },
            UnitActiveState::UnitActivating => (None, true),
            UnitActiveState::UnitInActive => (Some(JobResult::JobDone), false),
            UnitActiveState::UnitFailed => (Some(JobResult::JobFailed), false),
            _ => (None, false),
        },
        JobKind::JobStop | JobKind::JobRestart => match ns {
            UnitActiveState::UnitInActive | UnitActiveState::UnitFailed => (
                Some(JobResult::JobDone),
                true,
            ),
            UnitActiveState::UnitDeActivating => (None, true),
            _ => (Some(JobResult::JobFailed), false),
        },
        JobKind::JobNop => (None, false),
    }
}

} // verus!
