//! The job table: the jobs of a population of units, in the order in which they were
//! queued. On each unit at most one job is under way, and of each operation at most
//! one job is queued.
use crate::job_alloc::JobAlloc;
use crate::job_entry::{
    job_is_conflict, job_is_conflict_spec, Job, JobConf, JobErrno, JobHold, JobInfo, JobKind,
    JobResult, JobStage,
};
use crate::seq_util::{
    lemma_filter_all, lemma_filter_none, lemma_filter_positions, lemma_filter_remove_len,
    lemma_filter_split_len, lemma_filter_take_next, lemma_filter_update_len,
};
use crate::unit::{JobMode, UnitDb, UnitId, UnitRelationAtom};
use vstd::prelude::*;

verus! {

/// The test that a queued job passes.
pub open spec fn waiting() -> spec_fn(Job) -> bool {
    |j: Job| j.is_waiting()
}

/// The test that a job under way passes.
pub open spec fn running() -> spec_fn(Job) -> bool {
    |j: Job| j.is_running()
}

/// The number of queued jobs among `s`.
pub open spec fn wait_count(s: Seq<Job>) -> nat {
    s.filter(waiting()).len()
}

/// The number of jobs under way among `s`.
pub open spec fn run_count(s: Seq<Job>) -> nat {
    s.filter(running()).len()
}

/// Whether a job with identity `id` is among `s`.
pub open spec fn has_id(s: Seq<Job>, id: u32) -> bool {
    exists|i: int| 0 <= i < s.len() && (#[trigger] s[i]).id == id
}

/// Whether a job is under way on `unit`.
pub open spec fn has_trigger(s: Seq<Job>, unit: UnitId) -> bool {
    exists|i: int| 0 <= i < s.len() && (#[trigger] s[i]).unit == unit && s[i].is_running()
}

/// Whether the operation `kind` is queued for `unit`.
pub open spec fn has_suspend(s: Seq<Job>, unit: UnitId, kind: JobKind) -> bool {
    exists|i: int|
        0 <= i < s.len() && (#[trigger] s[i]).unit == unit && s[i].kind == kind
            && s[i].is_waiting()
}

/// Whether any job of `unit`, queued or under way, is among `s`.
pub open spec fn has_unit(s: Seq<Job>, unit: UnitId) -> bool {
    exists|i: int| 0 <= i < s.len() && (#[trigger] s[i]).unit == unit
}

/// What every job table keeps true of its jobs: no identity occurs twice; on one unit
/// at most one job is under way; of one operation on one unit at most one job is
/// queued; and only a job under way is ever held up.
pub open spec fn jobs_wf(s: Seq<Job>) -> bool {
    &&& forall|i: int, j: int|
        0 <= i < j < s.len() ==> (#[trigger] s[i]).id != (#[trigger] s[j]).id
    &&& forall|i: int, j: int|
        0 <= i < j < s.len() ==> !((#[trigger] s[i]).unit == (#[trigger] s[j]).unit
            && s[i].is_running() && s[j].is_running())
    &&& forall|i: int, j: int|
        0 <= i < j < s.len() ==> !((#[trigger] s[i]).unit == (#[trigger] s[j]).unit && s[i].kind
            == s[j].kind && s[i].is_waiting() && s[j].is_waiting())
    &&& forall|i: int|
        0 <= i < s.len() ==> ((#[trigger] s[i]).is_waiting() ==> s[i].hold == JobHold::JobFree)
}

/// Whether every job among `s` is queued.
pub open spec fn all_waiting(s: Seq<Job>) -> bool {
    forall|i: int| 0 <= i < s.len() ==> (#[trigger] s[i]).is_waiting()
}

/// Whether no identity among `s` lies above `bound`.
pub open spec fn ids_below(s: Seq<Job>, bound: nat) -> bool {
    forall|i: int| 0 <= i < s.len() ==> (#[trigger] s[i]).id <= bound
}

/// Whether no identity occurs both among `a` and among `b`.
pub open spec fn ids_apart(a: Seq<Job>, b: Seq<Job>) -> bool {
    forall|i: int, j: int|
        0 <= i < a.len() && 0 <= j < b.len() ==> (#[trigger] a[i]).id != (#[trigger] b[j]).id
}

/// The requests that the jobs among `s` stand for.
pub open spec fn confs(s: Seq<Job>) -> Set<JobConf> {
    Set::new(|c: JobConf| exists|i: int| 0 <= i < s.len() && (#[trigger] s[i]).conf() == c)
}

/// What makes of a job its request.
pub open spec fn conf_of_job() -> spec_fn(Job) -> JobConf {
    |j: Job| j.conf()
}

/// The requests that the jobs among `s` stand for, in the order of the jobs.
pub open spec fn conf_seq(s: Seq<Job>) -> Seq<JobConf> {
    s.map_values(conf_of_job())
}

/// Among queued jobs, a request is listed exactly if it is queued.
pub proof fn lemma_conf_seq_contains(s: Seq<Job>, c: JobConf)
    requires
        all_waiting(s),
    ensures
        conf_seq(s).contains(c) <==> has_suspend(s, c.unit, c.kind),
        conf_seq(s).contains(c) <==> confs(s).contains(c),
{
    if conf_seq(s).contains(c) {
        let i = choose|i: int| 0 <= i < conf_seq(s).len() && conf_seq(s)[i] == c;
        assert(s[i].conf() == c);
        assert(s[i].unit == c.unit && s[i].kind == c.kind && s[i].is_waiting());
    }
    if has_suspend(s, c.unit, c.kind) {
        let i = choose|i: int|
            0 <= i < s.len() && (#[trigger] s[i]).unit == c.unit && s[i].kind == c.kind
                && s[i].is_waiting();
        assert(conf_seq(s)[i] == c);
    }
    if confs(s).contains(c) {
        let i = choose|i: int| 0 <= i < s.len() && (#[trigger] s[i]).conf() == c;
        assert(conf_seq(s)[i] == c);
    }
}

/// A job more in the table is a request more in the list.
pub proof fn lemma_conf_seq_push(s: Seq<Job>, job: Job)
    ensures
        conf_seq(s.push(job)) == conf_seq(s).push(job.conf()),
{
    assert(conf_seq(s.push(job)) =~= conf_seq(s).push(job.conf()));
}

pub struct JobTable {
    jobs: Vec<Job>,
}

impl View for JobTable {
    type V = Seq<Job>;

    /// The jobs in the order in which they were queued.
    closed spec fn view(&self) -> Seq<Job> {
        self.jobs@
    }
}

/// Every job is either queued or under way.
pub proof fn lemma_counts_cover(s: Seq<Job>)
    ensures
        wait_count(s) + run_count(s) == s.len(),
        all_waiting(s) ==> wait_count(s) == s.len(),
{
    lemma_filter_split_len(s, waiting(), running(), waiting());
    assert(s.filter(running()).filter(waiting()).len() == 0) by {
        let r = s.filter(running());
        let at = lemma_filter_positions(s, running());
        let rw = r.filter(waiting());
        let at2 = lemma_filter_positions(r, waiting());
        if rw.len() > 0 {
            assert(waiting()(r[at2[0]]));
            assert(running()(s[at[at2[0]]]));
        }
    }
    assert(s.filter(waiting()).filter(waiting()).len() == s.filter(waiting()).len()) by {
        let w = s.filter(waiting());
        let at = lemma_filter_positions(s, waiting());
        lemma_filter_split_len(w, waiting(), running(), waiting());
        let wr = w.filter(running());
        let at2 = lemma_filter_positions(w, running());
        if wr.len() > 0 {
            assert(running()(w[at2[0]]));
            assert(waiting()(s[at[at2[0]]]));
        }
        lemma_filter_split_len(w, waiting(), running(), running());
    }
    if all_waiting(s) {
        let at = lemma_filter_positions(s, running());
        if s.filter(running()).len() > 0 {
            assert(running()(s[at[0]]));
        }
    }
}

/// Taking jobs out of a table leaves a table.
pub proof fn lemma_wf_filter(s: Seq<Job>, keep: spec_fn(Job) -> bool)
    requires
        jobs_wf(s),
    ensures
        jobs_wf(s.filter(keep)),
        forall|bound: nat| ids_below(s, bound) ==> ids_below(s.filter(keep), bound),
        all_waiting(s) ==> all_waiting(s.filter(keep)),
{
    let at = lemma_filter_positions(s, keep);
    let f = s.filter(keep);
    assert forall|i: int, j: int| 0 <= i < j < f.len() implies (#[trigger] f[i]).id != (
    #[trigger] f[j]).id by {
        assert(f[i] == s[at[i]] && f[j] == s[at[j]] && at[i] < at[j]);
    }
    assert forall|i: int, j: int| 0 <= i < j < f.len() implies !((#[trigger] f[i]).unit == (
    #[trigger] f[j]).unit && f[i].is_running() && f[j].is_running()) by {
        assert(f[i] == s[at[i]] && f[j] == s[at[j]] && at[i] < at[j]);
    }
    assert forall|i: int, j: int| 0 <= i < j < f.len() implies !((#[trigger] f[i]).unit == (
    #[trigger] f[j]).unit && f[i].kind == f[j].kind && f[i].is_waiting()
        && f[j].is_waiting()) by {
        assert(f[i] == s[at[i]] && f[j] == s[at[j]] && at[i] < at[j]);
    }
    assert forall|i: int| 0 <= i < f.len() && (#[trigger] f[i]).is_waiting() implies f[i].hold
        == JobHold::JobFree by {
        assert(f[i] == s[at[i]]);
    }
    assert forall|bound: nat| ids_below(s, bound) implies ids_below(f, bound) by {
        assert forall|i: int| 0 <= i < f.len() implies (#[trigger] f[i]).id <= bound by {
            assert(f[i] == s[at[i]]);
        }
    }
    if all_waiting(s) {
        assert forall|i: int| 0 <= i < f.len() implies (#[trigger] f[i]).is_waiting() by {
            assert(f[i] == s[at[i]]);
        }
    }
}

impl JobTable {
    pub open spec fn wf(&self) -> bool {
        jobs_wf(self@)
    }

    pub fn new() -> (table: JobTable)
        ensures
            table@.len() == 0,
            table.wf(),
    {
        JobTable { jobs: Vec::new() }
    }

    /// A table holds no more jobs than can be counted.
    pub proof fn lemma_len_bound(&self)
        ensures
            self@.len() <= usize::MAX,
    {
        assert(self.jobs@.len() == self.jobs.len());
    }

    /// The number of jobs, queued and under way.
    pub fn len(&self) -> (n: usize)
        ensures
            n == self@.len(),
    {
        self.jobs.len()
    }

    pub fn is_empty(&self) -> (empty: bool)
        ensures
            empty == (self@.len() == 0),
    {
        self.jobs.len() == 0
    }

    /// Forgets every job.
    pub fn clear(&mut self)
        ensures
            final(self)@.len() == 0,
            final(self).wf(),
    {
        self.jobs.clear();
    }

    /// The jobs, copied out in table order.
    pub fn jobs(&self) -> (copy: Vec<Job>)
        ensures
            copy@ == self@,
    {
        let mut copy: Vec<Job> = Vec::new();
        let mut i: usize = 0;
        while i < self.jobs.len()
            invariant
                i <= self.jobs.len(),
                copy@ == self.jobs@.take(i as int),
            decreases self.jobs.len() - i,
        {
            copy.push(self.jobs[i]);
            assert(self.jobs@.take(i + 1) =~= self.jobs@.take(i as int).push(self.jobs@[i as int]));
            i = i + 1;
        }
        assert(self.jobs@.take(i as int) =~= self.jobs@);
        copy
    }

    fn find_id(&self, id: u32) -> (at: Option<usize>)
        ensures
            match at {
                Some(i) => i < self@.len() && self@[i as int].id == id,
                None => !has_id(self@, id),
            },
    {
        let mut i: usize = 0;
        while i < self.jobs.len()
            invariant
                i <= self.jobs.len(),
                forall|k: int| 0 <= k < i ==> (#[trigger] self.jobs@[k]).id != id,
            decreases self.jobs.len() - i,
        {
            if self.jobs[i].id == id {
                return Some(i);
            }
            i = i + 1;
        }
        None
    }

    fn find_trigger(&self, unit: UnitId) -> (at: Option<usize>)
        ensures
            match at {
                Some(i) => i < self@.len() && self@[i as int].unit == unit
                    && self@[i as int].is_running(),
                None => !has_trigger(self@, unit),
            },
    {
        let mut i: usize = 0;
        while i < self.jobs.len()
            invariant
                i <= self.jobs.len(),
                forall|k: int|
                    0 <= k < i ==> !((#[trigger] self.jobs@[k]).unit == unit
                        && self.jobs@[k].is_running()),
            decreases self.jobs.len() - i,
        {
            if self.jobs[i].unit == unit && self.jobs[i].stage == JobStage::JobRunning {
                return Some(i);
            }
            i = i + 1;
        }
        None
    }

    fn find_suspend(&self, unit: UnitId, kind: JobKind) -> (at: Option<usize>)
        ensures
            match at {
                Some(i) => i < self@.len() && self@[i as int].unit == unit
                    && self@[i as int].kind == kind && self@[i as int].is_waiting(),
                None => !has_suspend(self@, unit, kind),
            },
    {
        let mut i: usize = 0;
        while i < self.jobs.len()
            invariant
                i <= self.jobs.len(),
                forall|k: int|
                    0 <= k < i ==> !((#[trigger] self.jobs@[k]).unit == unit && self.jobs@[k].kind
                        == kind && self.jobs@[k].is_waiting()),
            decreases self.jobs.len() - i,
        {
            if self.jobs[i].unit == unit && self.jobs[i].kind == kind && self.jobs[i].stage
                == JobStage::JobWait {
                return Some(i);
            }
            i = i + 1;
        }
        None
    }

    /// Whether the table holds a job of `unit`, queued or under way.
    pub fn has_unit_job(&self, unit: UnitId) -> (yes: bool)
        ensures
            yes == has_unit(self@, unit),
    {
        let mut i: usize = 0;
        while i < self.jobs.len()
            invariant
                i <= self.jobs.len(),
                forall|k: int| 0 <= k < i ==> (#[trigger] self.jobs@[k]).unit != unit,
            decreases self.jobs.len() - i,
        {
            if self.jobs[i].unit == unit {
                return true;
            }
            i = i + 1;
        }
        false
    }

    /// The snapshot of the job with identity `id`, if the table holds one.
    pub fn get(&self, id: u32) -> (found: Option<JobInfo>)
        ensures
            found.is_some() <==> has_id(self@, id),
            match found {
                Some(info) => exists|i: int|
                    0 <= i < self@.len() && (#[trigger] self@[i]).id == id && info
                        == self@[i].info(),
                None => true,
            },
    {
        match self.find_id(id) {
            Some(i) => Some(JobInfo::map(&self.jobs[i])),
            None => None,
        }
    }

    /// Whether the job with identity `id` is under way.
    pub fn is_trigger(&self, id: u32) -> (yes: bool)
        requires
            self.wf(),
        ensures
            yes <==> exists|i: int|
                0 <= i < self@.len() && (#[trigger] self@[i]).id == id && self@[i].is_running(),
    {
        match self.find_id(id) {
            Some(i) => {
                let yes = self.jobs[i].stage == JobStage::JobRunning;
                proof {
                    lemma_id_at(self@, i as int);
                }
                yes
            },
            None => false,
        }
    }

    /// Whether the job with identity `id` is queued.
    pub fn is_suspend(&self, id: u32) -> (yes: bool)
        requires
            self.wf(),
        ensures
            yes <==> exists|i: int|
                0 <= i < self@.len() && (#[trigger] self@[i]).id == id && self@[i].is_waiting(),
    {
        match self.find_id(id) {
            Some(i) => {
                let yes = self.jobs[i].stage == JobStage::JobWait;
                proof {
                    lemma_id_at(self@, i as int);
                }
                yes
            },
            None => false,
        }
    }

    /// The snapshot of the job that is queued for `unit` to do `kind`, if there is one.
    pub fn get_suspend(&self, unit: UnitId, kind: JobKind) -> (found: Option<JobInfo>)
        ensures
            found.is_some() <==> has_suspend(self@, unit, kind),
            match found {
                Some(info) => exists|i: int|
                    0 <= i < self@.len() && info == (#[trigger] self@[i]).info() && info.unit
                        == unit && info.kind == kind && info.stage == JobStage::JobWait,
                None => true,
            },
    {
        match self.find_suspend(unit, kind) {
            Some(i) => Some(JobInfo::map(&self.jobs[i])),
            None => None,
        }
    }

    /// The snapshot of the job that is under way on `unit`, if there is one, and
    /// whether that job is put off until the unit moves.
    pub fn get_trigger_info(&self, unit: UnitId) -> (found: Option<(JobInfo, bool)>)
        ensures
            found.is_some() <==> has_trigger(self@, unit),
            match found {
                Some((info, paused)) => exists|i: int|
                    0 <= i < self@.len() && info == (#[trigger] self@[i]).info() && info.unit
                        == unit && info.stage == JobStage::JobRunning && paused == (self@[i].hold
                        == JobHold::JobPaused),
                None => true,
            },
    {
        match self.find_trigger(unit) {
            Some(i) => Some(
                (JobInfo::map(&self.jobs[i]), self.jobs[i].hold == JobHold::JobPaused),
            ),
            None => None,
        }
    }

    /// Queues a new job for the request `config`, unless the same operation is
    /// already queued for the unit. Says whether a job was created. Fails, and changes
    /// nothing, if a job is due and no identity is left.
    pub fn record_suspend(&mut self, ja: &mut JobAlloc, config: &JobConf) -> (res: Result<
        bool,
        JobErrno,
    >)
        requires
            old(self).wf(),
            ids_below(old(self)@, old(ja).last()),
        ensures
            final(self).wf(),
            ids_below(final(self)@, final(ja).last()),
            all_waiting(old(self)@) ==> all_waiting(final(self)@),
            has_suspend(old(self)@, config.unit, config.kind) ==> res == Ok::<bool, JobErrno>(
                false,
            ) && final(self)@ == old(self)@ && final(ja).last() == old(ja).last(),
            !has_suspend(old(self)@, config.unit, config.kind) && old(ja).last() < u32::MAX
                ==> res == Ok::<bool, JobErrno>(true) && final(ja).last() == old(ja).last() + 1
                && final(self)@ == old(self)@.push(
                Job::fresh((old(ja).last() + 1) as u32, *config),
            ),
            !has_suspend(old(self)@, config.unit, config.kind) && old(ja).last() >= u32::MAX
                ==> res == Err::<bool, JobErrno>(JobErrno::JobErrInternel)
                && final(self)@ == old(self)@ && final(ja).last() == old(ja).last()
                && final(ja).last() == u32::MAX,
    {
        if self.find_suspend(config.unit, config.kind).is_some() {
            return Ok(false);
        }
        match ja.alloc_id() {
            Some(id) => {
                self.jobs.push(Job::new(id, config));
                Ok(true)
            },
            None => {
                proof {
                    ja.lemma_last_bound();
                }
                Err(JobErrno::JobErrInternel)
            },
        }
    }
}

/// The test that a job of `unit` passes.
pub open spec fn of_unit(unit: UnitId) -> spec_fn(Job) -> bool {
    |j: Job| j.unit == unit
}

/// The test that a job of any other unit than `unit` passes.
pub open spec fn not_of_unit(unit: UnitId) -> spec_fn(Job) -> bool {
    |j: Job| j.unit != unit
}

/// The test that a job passes which is queued for `unit` to do `kind1`, or to do the
/// operation in `kind2`.
pub open spec fn suspend_of(unit: UnitId, kind1: JobKind, kind2: Option<JobKind>) -> spec_fn(
    Job,
) -> bool {
    |j: Job| j.unit == unit && j.is_waiting() && (j.kind == kind1 || kind2 == Some(j.kind))
}

/// The test that a job passes which `suspend_of` turns away.
pub open spec fn not_suspend_of(unit: UnitId, kind1: JobKind, kind2: Option<JobKind>) -> spec_fn(
    Job,
) -> bool {
    |j: Job| !(j.unit == unit && j.is_waiting() && (j.kind == kind1 || kind2 == Some(j.kind)))
}

/// Splitting a table in two leaves a table, and loses no job from either count.
pub proof fn lemma_take_out(s: Seq<Job>, keep: spec_fn(Job) -> bool, drop: spec_fn(Job) -> bool)
    requires
        jobs_wf(s),
        forall|a: Job| #[trigger] drop(a) == !keep(a),
    ensures
        jobs_wf(s.filter(keep)),
        wait_count(s.filter(keep)) + wait_count(s.filter(drop)) == wait_count(s),
        run_count(s.filter(keep)) + run_count(s.filter(drop)) == run_count(s),
        s.filter(keep).len() + s.filter(drop).len() == s.len(),
{
    lemma_wf_filter(s, keep);
    lemma_filter_split_len(s, keep, drop, waiting());
    lemma_filter_split_len(s, keep, drop, running());
}

/// On one unit of a table at most one job is under way.
pub proof fn lemma_one_trigger(s: Seq<Job>, unit: UnitId)
    requires
        jobs_wf(s),
    ensures
        run_count(s.filter(of_unit(unit))) == if has_trigger(s, unit) {
            1nat
        } else {
            0nat
        },
{
    let u = s.filter(of_unit(unit));
    let at = lemma_filter_positions(s, of_unit(unit));
    let r = u.filter(running());
    let at2 = lemma_filter_positions(u, running());
    if r.len() >= 2 {
        let i = at[at2[0]];
        let j = at[at2[1]];
        assert(at2[0] < at2[1]);
        assert(i < j);
        assert(s[i] == u[at2[0]] && s[j] == u[at2[1]]);
        assert(running()(u[at2[0]]) && running()(u[at2[1]]));
        assert(of_unit(unit)(s[i]) && of_unit(unit)(s[j]));
        assert(false);
    }
    if r.len() == 1 {
        let i = at[at2[0]];
        assert(s[i] == u[at2[0]]);
        assert(running()(u[at2[0]]) && of_unit(unit)(s[i]));
        assert(s[i].unit == unit && s[i].is_running());
    }
    if has_trigger(s, unit) {
        let i = choose|i: int| 0 <= i < s.len() && (#[trigger] s[i]).unit == unit
            && s[i].is_running();
        assert(of_unit(unit)(s[i]));
        assert(at.contains(i));
        let k = choose|k: int| 0 <= k < at.len() && at[k] == i;
        assert(u[k] == s[i]);
        assert(running()(u[k]));
        assert(at2.contains(k));
    }
}

impl JobTable {
    /// Takes out the jobs that are queued for `unit` to do `kind1`, or to do the
    /// operation in `kind2`, and hands them back in table order.
    pub fn remove_suspends(&mut self, unit: UnitId, kind1: JobKind, kind2: Option<JobKind>) -> (dels:
        Vec<Job>)
        requires
            old(self).wf(),
        ensures
            final(self).wf(),
            dels@ == old(self)@.filter(suspend_of(unit, kind1, kind2)),
            final(self)@ == old(self)@.filter(not_suspend_of(unit, kind1, kind2)),
            wait_count(final(self)@) + dels@.len() == wait_count(old(self)@),
            run_count(final(self)@) == run_count(old(self)@),
    {
        let mut kept: Vec<Job> = Vec::new();
        let mut dels: Vec<Job> = Vec::new();
        let ghost drop = suspend_of(unit, kind1, kind2);
        let ghost keep = not_suspend_of(unit, kind1, kind2);
        let mut i: usize = 0;
        while i < self.jobs.len()
            invariant
                i <= self.jobs.len(),
                drop == suspend_of(unit, kind1, kind2),
                keep == not_suspend_of(unit, kind1, kind2),
                kept@ == self.jobs@.take(i as int).filter(keep),
                dels@ == self.jobs@.take(i as int).filter(drop),
            decreases self.jobs.len() - i,
        {
            let job = self.jobs[i];
            proof {
                lemma_filter_take_next(self.jobs@, keep, i as int);
                lemma_filter_take_next(self.jobs@, drop, i as int);
            }
            let other = match kind2 {
                Some(k) => job.kind == k,
                None => false,
            };
            if job.unit == unit && job.stage == JobStage::JobWait && (job.kind == kind1 || other) {
                dels.push(job);
            } else {
                kept.push(job);
            }
            i = i + 1;
        }
        proof {
            let s = self.jobs@;
            assert(s.take(i as int) =~= s);
            lemma_take_out(s, keep, drop);
            assert forall|k: int| 0 <= k < dels@.len() implies waiting()(#[trigger] dels@[k]) by {
                let at = lemma_filter_positions(s, drop);
                assert(drop(s[at[k]]));
            }
            lemma_filter_all(dels@, waiting());
            assert forall|k: int| 0 <= k < dels@.len() implies !running()(#[trigger] dels@[k]) by {
                assert(waiting()(dels@[k]));
            }
            lemma_filter_none(dels@, running());
        }
        self.jobs = kept;
        dels
    }

    /// Takes out every job of `unit`: hands back the one that is under way, if there
    /// is one, and those that are queued, in table order.
    pub fn remove_unit(&mut self, unit: UnitId) -> (gone: (Option<Job>, Vec<Job>))
        requires
            old(self).wf(),
        ensures
            final(self).wf(),
            final(self)@ == old(self)@.filter(not_of_unit(unit)),
            gone.1@ == old(self)@.filter(of_unit(unit)).filter(waiting()),
            gone.0.is_some() <==> has_trigger(old(self)@, unit),
            match gone.0 {
                Some(job) => old(self)@.contains(job) && job.unit == unit && job.is_running(),
                None => true,
            },
            wait_count(final(self)@) + gone.1@.len() == wait_count(old(self)@),
            run_count(final(self)@) + (if gone.0.is_some() {
                1nat
            } else {
                0nat
            }) == run_count(old(self)@),
    {
        let mut kept: Vec<Job> = Vec::new();
        let mut suspends: Vec<Job> = Vec::new();
        let mut trigger: Option<Job> = None;
        let ghost drop = of_unit(unit);
        let ghost keep = not_of_unit(unit);
        let mut i: usize = 0;
        while i < self.jobs.len()
            invariant
                i <= self.jobs.len(),
                drop == of_unit(unit),
                keep == not_of_unit(unit),
                kept@ == self.jobs@.take(i as int).filter(keep),
                suspends@ == self.jobs@.take(i as int).filter(drop).filter(waiting()),
                trigger.is_some() <==> has_trigger(self.jobs@.take(i as int), unit),
                match trigger {
                    Some(job) => self.jobs@.contains(job) && job.unit == unit && job.is_running(),
                    None => true,
                },
            decreases self.jobs.len() - i,
        {
            let job = self.jobs[i];
            proof {
                let s = self.jobs@;
                lemma_filter_take_next(s, keep, i as int);
                lemma_filter_take_next(s, drop, i as int);
                s.take(i as int).filter(drop).lemma_filter_push(job, waiting());
                assert(s.take(i + 1)[i as int] == job);
                assert(s[i as int] == job);
                assert forall|k: int| 0 <= k < i implies s.take(i as int)[k] == (
                #[trigger] s.take(i + 1)[k]) by {}
                if has_trigger(s.take(i as int), unit) {
                    let k = choose|k: int| 0 <= k < i && (#[trigger] s.take(i as int)[k]).unit
                        == unit && s.take(i as int)[k].is_running();
                    assert(s.take(i + 1)[k].unit == unit && s.take(i + 1)[k].is_running());
                }
                if has_trigger(s.take(i + 1), unit) && !(job.unit == unit && job.is_running()) {
                    let k = choose|k: int| 0 <= k < i + 1 && (#[trigger] s.take(i + 1)[k]).unit
                        == unit && s.take(i + 1)[k].is_running();
                    assert(k < i);
                    assert(s.take(i as int)[k].unit == unit && s.take(i as int)[k].is_running());
                }
            }
            if job.unit == unit {
                if job.stage == JobStage::JobWait {
                    suspends.push(job);
                } else {
                    trigger = Some(job);
                }
            } else {
                kept.push(job);
            }
            i = i + 1;
        }
        proof {
            let s = self.jobs@;
            assert(s.take(i as int) =~= s);
            lemma_take_out(s, keep, drop);
            lemma_one_trigger(s, unit);
        }
        self.jobs = kept;
        (trigger, suspends)
    }
}

/// Whether the job at position `i` is the one under way on `unit`.
pub open spec fn trigger_at(s: Seq<Job>, unit: UnitId, i: int) -> bool {
    0 <= i < s.len() && s[i].unit == unit && s[i].is_running()
}

/// The position of the job under way on `unit`, where there is one.
pub open spec fn trigger_index(s: Seq<Job>, unit: UnitId) -> int {
    choose|i: int| trigger_at(s, unit, i)
}

/// In a table, the job under way on a unit stands at one position only.
pub proof fn lemma_trigger_index(s: Seq<Job>, unit: UnitId, i: int)
    requires
        jobs_wf(s),
        trigger_at(s, unit, i),
    ensures
        trigger_index(s, unit) == i,
        has_trigger(s, unit),
{
    let k = trigger_index(s, unit);
    assert(trigger_at(s, unit, k));
    if k < i {
        assert(!(s[k].unit == s[i].unit && s[k].is_running() && s[i].is_running()));
    }
    if i < k {
        assert(!(s[i].unit == s[k].unit && s[i].is_running() && s[k].is_running()));
    }
    assert(s[i].unit == unit && s[i].is_running());
}

/// Where there is a job under way on a unit, `trigger_index` finds it.
pub proof fn lemma_trigger_exists(s: Seq<Job>, unit: UnitId)
    requires
        has_trigger(s, unit),
    ensures
        trigger_at(s, unit, trigger_index(s, unit)),
{
    let i = choose|i: int| 0 <= i < s.len() && (#[trigger] s[i]).unit == unit && s[i].is_running();
    assert(trigger_at(s, unit, i));
}

/// Whether a job under way that ends with `result` goes back into the queue: a restart
/// whose stop is done has its start still to do, unless another restart of the unit is
/// queued already and will do it.
pub open spec fn job_requeues(s: Seq<Job>, job: Job, result: JobResult) -> bool {
    job.kind == JobKind::JobRestart && job.run_kind == JobKind::JobStop && result
        == JobResult::JobDone && !has_suspend(s, job.unit, JobKind::JobRestart)
}

/// The job as it goes back into the queue for its second step.
pub open spec fn job_requeued(job: Job) -> Job {
    Job { run_kind: JobKind::JobStart, stage: JobStage::JobWait, hold: JobHold::JobFree, ..job }
}

/// The job as it is once triggered.
pub open spec fn job_triggered(job: Job) -> Job {
    Job { stage: JobStage::JobRunning, hold: JobHold::JobFree, ..job }
}

/// The job with another hold.
pub open spec fn job_held(job: Job, hold: JobHold) -> Job {
    Job { hold, ..job }
}

/// Whether job `a` has to wait for job `b` because of the order between their units:
/// a job that does not stop its unit waits for every job on a unit that its own unit
/// comes after, and any job waits for the stop of a unit that its own unit comes
/// before. No-ops neither wait nor are waited for.
pub open spec fn job_order_blocked(db: &UnitDb, a: Job, b: Job) -> bool {
    a.unit != b.unit && a.run_kind != JobKind::JobNop && b.run_kind != JobKind::JobNop && ((
    a.run_kind != JobKind::JobStop && db.has_atom(
        a.unit,
        UnitRelationAtom::UnitAtomAfter,
        b.unit,
    )) || (b.run_kind == JobKind::JobStop && db.has_atom(
        a.unit,
        UnitRelationAtom::UnitAtomBefore,
        b.unit,
    )))
}

/// Whether the queued job at position `i` can be triggered: nothing is under way on
/// its unit, and it has to wait for no job in the table.
#[verifier::opaque]
pub open spec fn job_is_runnable(s: Seq<Job>, db: &UnitDb, i: int) -> bool {
    0 <= i < s.len() && s[i].is_waiting() && !has_trigger(s, s[i].unit) && forall|k: int|
        0 <= k < s.len() ==> !job_order_blocked(db, s[i], #[trigger] s[k])
}

/// Whether the job at position `i` is due to be handed to its unit: a queued job
/// that can be triggered, or a job under way that was put off and has been resumed.
pub open spec fn job_is_due(s: Seq<Job>, db: &UnitDb, i: int) -> bool {
    0 <= i < s.len() && (job_is_runnable(s, db, i) || (s[i].is_running() && s[i].hold
        == JobHold::JobResumed))
}

/// Whether the job at position `i` makes its unit ready: the order between units
/// aside, the unit has something to hand out.
pub open spec fn job_is_ready(s: Seq<Job>, i: int) -> bool {
    0 <= i < s.len() && ((s[i].is_waiting() && !has_trigger(s, s[i].unit)) || (s[i].is_running()
        && s[i].hold == JobHold::JobResumed))
}

/// The units which a job among the first `n` of `s` makes ready.
pub open spec fn ready_units_upto(s: Seq<Job>, n: int) -> Set<UnitId> {
    Set::new(|u: UnitId| exists|k: int| 0 <= k < n && job_is_ready(s, k) && (#[trigger] s[k]).unit == u)
}

/// The units that are ready.
pub open spec fn ready_units(s: Seq<Job>) -> Set<UnitId> {
    ready_units_upto(s, s.len() as int)
}

/// Looking at one job more adds its unit to the ready ones if the job makes it ready.
pub proof fn lemma_ready_units_next(s: Seq<Job>, i: int)
    requires
        0 <= i < s.len(),
    ensures
        ready_units_upto(s, 0) == Set::<UnitId>::empty(),
        ready_units_upto(s, i + 1) == if job_is_ready(s, i) {
            ready_units_upto(s, i).insert(s[i].unit)
        } else {
            ready_units_upto(s, i)
        },
{
    assert(ready_units_upto(s, 0) =~= Set::<UnitId>::empty());
    let next = ready_units_upto(s, i + 1);
    let prev = ready_units_upto(s, i);
    if job_is_ready(s, i) {
        assert forall|u: UnitId| next.contains(u) <==> prev.insert(s[i].unit).contains(u) by {
            if next.contains(u) {
                let k = choose|k: int| 0 <= k < i + 1 && job_is_ready(s, k) && (#[trigger] s[k]).unit
                    == u;
                if k < i {
                    assert(prev.contains(u));
                }
            }
            if prev.contains(u) {
                let k = choose|k: int| 0 <= k < i && job_is_ready(s, k) && (#[trigger] s[k]).unit
                    == u;
                assert(0 <= k < i + 1 && job_is_ready(s, k) && s[k].unit == u);
            }
            if u == s[i].unit {
                assert(0 <= i < i + 1 && job_is_ready(s, i) && s[i].unit == u);
            }
        }
        assert(next =~= prev.insert(s[i].unit));
    } else {
        assert forall|u: UnitId| next.contains(u) <==> prev.contains(u) by {
            if next.contains(u) {
                let k = choose|k: int| 0 <= k < i + 1 && job_is_ready(s, k) && (#[trigger] s[k]).unit
                    == u;
                assert(k < i);
            }
            if prev.contains(u) {
                let k = choose|k: int| 0 <= k < i && job_is_ready(s, k) && (#[trigger] s[k]).unit
                    == u;
                assert(0 <= k < i + 1 && job_is_ready(s, k) && s[k].unit == u);
            }
        }
        assert(next =~= prev);
    }
}

/// Replacing a job by one of the same identity and unit leaves a table, if the new
/// job breaks none of the table's rules at its place.
pub proof fn lemma_wf_update(s: Seq<Job>, i: int, job: Job)
    requires
        jobs_wf(s),
        0 <= i < s.len(),
        job.id == s[i].id,
        job.unit == s[i].unit,
        job.is_waiting() ==> job.hold == JobHold::JobFree,
        job.is_running() ==> s[i].is_running() || !has_trigger(s, job.unit),
        job.is_waiting() ==> (s[i].is_waiting() && s[i].kind == job.kind) || !has_suspend(
            s,
            job.unit,
            job.kind,
        ),
    ensures
        jobs_wf(s.update(i, job)),
{
    let t = s.update(i, job);
    assert forall|a: int, b: int| 0 <= a < b < t.len() implies (#[trigger] t[a]).id != (
    #[trigger] t[b]).id by {
        assert(s[a].id != s[b].id);
    }
    assert forall|a: int, b: int| 0 <= a < b < t.len() implies !((#[trigger] t[a]).unit == (
    #[trigger] t[b]).unit && t[a].is_running() && t[b].is_running()) by {
        assert(!(s[a].unit == s[b].unit && s[a].is_running() && s[b].is_running()));
        if a == i && job.is_running() && !s[i].is_running() {
            assert(!(s[b].unit == job.unit && s[b].is_running()));
        }
        if b == i && job.is_running() && !s[i].is_running() {
            assert(!(s[a].unit == job.unit && s[a].is_running()));
        }
    }
    assert forall|a: int, b: int| 0 <= a < b < t.len() implies !((#[trigger] t[a]).unit == (
    #[trigger] t[b]).unit && t[a].kind == t[b].kind && t[a].is_waiting()
        && t[b].is_waiting()) by {
        assert(!(s[a].unit == s[b].unit && s[a].kind == s[b].kind && s[a].is_waiting()
            && s[b].is_waiting()));
        if a == i && job.is_waiting() && !(s[i].is_waiting() && s[i].kind == job.kind) {
            assert(!(s[b].unit == job.unit && s[b].kind == job.kind && s[b].is_waiting()));
        }
        if b == i && job.is_waiting() && !(s[i].is_waiting() && s[i].kind == job.kind) {
            assert(!(s[a].unit == job.unit && s[a].kind == job.kind && s[a].is_waiting()));
        }
    }
    assert forall|a: int| 0 <= a < t.len() && (#[trigger] t[a]).is_waiting() implies t[a].hold
        == JobHold::JobFree by {
        assert(s[a].is_waiting() ==> s[a].hold == JobHold::JobFree);
    }
}

/// Taking one job out of a table leaves a table.
pub proof fn lemma_wf_remove(s: Seq<Job>, i: int)
    requires
        jobs_wf(s),
        0 <= i < s.len(),
    ensures
        jobs_wf(s.remove(i)),
{
    let t = s.remove(i);
    let at = |k: int| if k < i { k } else { k + 1 };
    assert forall|a: int, b: int| 0 <= a < b < t.len() implies (#[trigger] t[a]).id != (
    #[trigger] t[b]).id by {
        assert(t[a] == s[at(a)] && t[b] == s[at(b)] && at(a) < at(b));
    }
    assert forall|a: int, b: int| 0 <= a < b < t.len() implies !((#[trigger] t[a]).unit == (
    #[trigger] t[b]).unit && t[a].is_running() && t[b].is_running()) by {
        assert(t[a] == s[at(a)] && t[b] == s[at(b)] && at(a) < at(b));
    }
    assert forall|a: int, b: int| 0 <= a < b < t.len() implies !((#[trigger] t[a]).unit == (
    #[trigger] t[b]).unit && t[a].kind == t[b].kind && t[a].is_waiting()
        && t[b].is_waiting()) by {
        assert(t[a] == s[at(a)] && t[b] == s[at(b)] && at(a) < at(b));
    }
    assert forall|a: int| 0 <= a < t.len() && (#[trigger] t[a]).is_waiting() implies t[a].hold
        == JobHold::JobFree by {
        assert(t[a] == s[at(a)]);
    }
}

/// What replacing one job does to the two counts.
pub proof fn lemma_counts_update(s: Seq<Job>, i: int, job: Job)
    requires
        0 <= i < s.len(),
    ensures
        s[i].stage == job.stage ==> wait_count(s.update(i, job)) == wait_count(s) && run_count(
            s.update(i, job),
        ) == run_count(s),
        s[i].is_waiting() && job.is_running() ==> wait_count(s.update(i, job)) + 1 == wait_count(
            s,
        ) && run_count(s.update(i, job)) == run_count(s) + 1,
        s[i].is_running() && job.is_waiting() ==> wait_count(s.update(i, job)) == wait_count(s)
            + 1 && run_count(s.update(i, job)) + 1 == run_count(s),
{
    lemma_filter_update_len(s, waiting(), i, job);
    lemma_filter_update_len(s, running(), i, job);
}

impl JobTable {
    /// Ends the job that is under way on `unit`. The job leaves the table and is handed
    /// back, unless it goes back into the queue for its second step: then nothing is
    /// handed back. Nothing happens if no job is under way on the unit.
    pub fn finish_trigger(&mut self, unit: UnitId, result: JobResult) -> (gone: Option<Job>)
        requires
            old(self).wf(),
        ensures
            final(self).wf(),
            !has_trigger(old(self)@, unit) ==> gone.is_none() && final(self)@ == old(self)@,
            has_trigger(old(self)@, unit) ==> ({
                let i = trigger_index(old(self)@, unit);
                let job = old(self)@[i];
                &&& trigger_at(old(self)@, unit, i)
                &&& run_count(final(self)@) + 1 == run_count(old(self)@)
                &&& if job_requeues(old(self)@, job, result) {
                    &&& gone.is_none()
                    &&& final(self)@ == old(self)@.update(i, job_requeued(job))
                    &&& wait_count(final(self)@) == wait_count(old(self)@) + 1
                } else {
                    &&& gone == Some(job)
                    &&& final(self)@ == old(self)@.remove(i)
                    &&& wait_count(final(self)@) == wait_count(old(self)@)
                }
            }),
    {
        match self.find_trigger(unit) {
            None => None,
            Some(i) => {
                let job = self.jobs[i];
                proof {
                    lemma_trigger_index(self@, unit, i as int);
                }
                let again = job.kind == JobKind::JobRestart && job.run_kind == JobKind::JobStop
                    && result == JobResult::JobDone && self.find_suspend(
                    unit,
                    JobKind::JobRestart,
                ).is_none();
                if again {
                    let back = Job {
                        id: job.id,
                        unit: job.unit,
                        kind: job.kind,
                        run_kind: JobKind::JobStart,
                        stage: JobStage::JobWait,
                        hold: JobHold::JobFree,
                    };
                    proof {
                        lemma_wf_update(self@, i as int, back);
                        lemma_counts_update(self@, i as int, back);
                    }
                    self.jobs[i] = back;
                    None
                } else {
                    proof {
                        lemma_wf_remove(self@, i as int);
                        lemma_filter_remove_len(self@, waiting(), i as int);
                        lemma_filter_remove_len(self@, running(), i as int);
                    }
                    self.jobs.remove(i);
                    Some(job)
                }
            },
        }
    }

    /// Puts off the job that is under way on `unit`, if there is one: the unit could
    /// not take it yet.
    pub fn pause_unit(&mut self, unit: UnitId)
        requires
            old(self).wf(),
        ensures
            final(self).wf(),
            wait_count(final(self)@) == wait_count(old(self)@),
            run_count(final(self)@) == run_count(old(self)@),
            !has_trigger(old(self)@, unit) ==> final(self)@ == old(self)@,
            has_trigger(old(self)@, unit) ==> ({
                let i = trigger_index(old(self)@, unit);
                &&& trigger_at(old(self)@, unit, i)
                &&& final(self)@ == old(self)@.update(
                    i,
                    job_held(old(self)@[i], JobHold::JobPaused),
                )
            }),
    {
        match self.find_trigger(unit) {
            None => {},
            Some(i) => {
                let job = self.jobs[i];
                let held = Job {
                    id: job.id,
                    unit: job.unit,
                    kind: job.kind,
                    run_kind: job.run_kind,
                    stage: job.stage,
                    hold: JobHold::JobPaused,
                };
                proof {
                    lemma_trigger_index(self@, unit, i as int);
                    lemma_wf_update(self@, i as int, held);
                    lemma_counts_update(self@, i as int, held);
                }
                self.jobs[i] = held;
            },
        }
    }

    /// Resumes the job that is under way on `unit`, if there is one and it was put
    /// off: it is due to be handed to the unit again.
    pub fn resume_unit(&mut self, unit: UnitId)
        requires
            old(self).wf(),
        ensures
            final(self).wf(),
            wait_count(final(self)@) == wait_count(old(self)@),
            run_count(final(self)@) == run_count(old(self)@),
            !has_trigger(old(self)@, unit) ==> final(self)@ == old(self)@,
            has_trigger(old(self)@, unit) ==> ({
                let i = trigger_index(old(self)@, unit);
                &&& trigger_at(old(self)@, unit, i)
                &&& if old(self)@[i].hold == JobHold::JobPaused {
                    final(self)@ == old(self)@.update(
                        i,
                        job_held(old(self)@[i], JobHold::JobResumed),
                    )
                } else {
                    final(self)@ == old(self)@
                }
            }),
    {
        match self.find_trigger(unit) {
            None => {},
            Some(i) => {
                let job = self.jobs[i];
                proof {
                    lemma_trigger_index(self@, unit, i as int);
                }
                if job.hold == JobHold::JobPaused {
                    let held = Job {
                        id: job.id,
                        unit: job.unit,
                        kind: job.kind,
                        run_kind: job.run_kind,
                        stage: job.stage,
                        hold: JobHold::JobResumed,
                    };
                    proof {
                        lemma_wf_update(self@, i as int, held);
                        lemma_counts_update(self@, i as int, held);
                    }
                    self.jobs[i] = held;
                }
            },
        }
    }

    fn order_blocked(db: &UnitDb, a: &Job, b: &Job) -> (blocked: bool)
        ensures
            blocked == job_order_blocked(db, *a, *b),
    {
        if a.unit == b.unit || a.run_kind == JobKind::JobNop || b.run_kind == JobKind::JobNop {
            return false;
        }
        if a.run_kind != JobKind::JobStop && db.dep_is_dep_atom_with(
            a.unit,
            UnitRelationAtom::UnitAtomAfter,
            b.unit,
        ) {
            return true;
        }
        b.run_kind == JobKind::JobStop && db.dep_is_dep_atom_with(
            a.unit,
            UnitRelationAtom::UnitAtomBefore,
            b.unit,
        )
    }

    fn runnable_at(&self, db: &UnitDb, i: usize) -> (yes: bool)
        requires
            i < self@.len(),
        ensures
            yes == job_is_runnable(self@, db, i as int),
    {
        let job = self.jobs[i];
        proof {
            reveal(job_is_runnable);
        }
        if job.stage != JobStage::JobWait {
            return false;
        }
        if self.find_trigger(job.unit).is_some() {
            return false;
        }
        let mut k: usize = 0;
        while k < self.jobs.len()
            invariant
                k <= self.jobs.len(),
                i < self.jobs.len(),
                job == self.jobs@[i as int],
                forall|m: int| 0 <= m < k ==> !job_order_blocked(db, job, #[trigger] self.jobs@[m]),
            decreases self.jobs.len() - k,
        {
            if Self::order_blocked(db, &job, &self.jobs[k]) {
                proof {
                    reveal(job_is_runnable);
                }
                return false;
            }
            k = k + 1;
        }
        true
    }

    fn ready_at(&self, i: usize) -> (yes: bool)
        requires
            i < self@.len(),
        ensures
            yes == job_is_ready(self@, i as int),
    {
        let job = self.jobs[i];
        if job.stage == JobStage::JobWait {
            self.find_trigger(job.unit).is_none()
        } else {
            job.hold == JobHold::JobResumed
        }
    }

    /// Picks the first job in table order that is due and hands it out: the job is
    /// under way from now on. Says with the snapshot of the job whether it came out of
    /// the queue (or was under way already and only resumed).
    pub fn try_trigger(&mut self, db: &UnitDb) -> (picked: Option<(JobInfo, bool)>)
        requires
            old(self).wf(),
        ensures
            final(self).wf(),
            match picked {
                None => final(self)@ == old(self)@ && forall|i: int|
                    !job_is_due(old(self)@, db, i),
                Some((info, fresh)) => exists|i: int|
                    {
                        &&& #[trigger] job_is_due(old(self)@, db, i)
                        &&& forall|k: int| 0 <= k < i ==> !job_is_due(old(self)@, db, k)
                        &&& final(self)@ == old(self)@.update(i, job_triggered(old(self)@[i]))
                        &&& info == job_triggered(old(self)@[i]).info()
                        &&& fresh == old(self)@[i].is_waiting()
                    },
            },
            match picked {
                Some((_, true)) => wait_count(final(self)@) + 1 == wait_count(old(self)@)
                    && run_count(final(self)@) == run_count(old(self)@) + 1,
                _ => wait_count(final(self)@) == wait_count(old(self)@) && run_count(
                    final(self)@,
                ) == run_count(old(self)@),
            },
    {
        let mut i: usize = 0;
        while i < self.jobs.len()
            invariant
                i <= self.jobs.len(),
                self.jobs@ == old(self)@,
                self.wf(),
                forall|k: int| 0 <= k < i ==> !job_is_due(self@, db, k),
            decreases self.jobs.len() - i,
        {
            let job = self.jobs[i];
            let resumed = job.stage == JobStage::JobRunning && job.hold == JobHold::JobResumed;
            if resumed || self.runnable_at(db, i) {
                let fresh = job.stage == JobStage::JobWait;
                let now = Job {
                    id: job.id,
                    unit: job.unit,
                    kind: job.kind,
                    run_kind: job.run_kind,
                    stage: JobStage::JobRunning,
                    hold: JobHold::JobFree,
                };
                proof {
                    reveal(job_is_runnable);
                    assert(job_is_due(self@, db, i as int));
                    lemma_wf_update(self@, i as int, now);
                    lemma_counts_update(self@, i as int, now);
                }
                self.jobs[i] = now;
                return Some((JobInfo::map(&now), fresh));
            }
            i = i + 1;
        }
        None
    }

    /// The number of units that are ready.
    pub fn ready_len(&self) -> (n: usize)
        requires
            self.wf(),
        ensures
            ready_units(self@).finite(),
            n == ready_units(self@).len(),
    {
        let mut n: usize = 0;
        let mut i: usize = 0;
        proof {
            if self.jobs.len() > 0 {
                lemma_ready_units_next(self@, 0);
            } else {
                assert(ready_units_upto(self@, 0) =~= Set::<UnitId>::empty());
            }
        }
        while i < self.jobs.len()
            invariant
                i <= self.jobs.len(),
                n <= i,
                ready_units_upto(self@, i as int).finite(),
                n == ready_units_upto(self@, i as int).len(),
            decreases self.jobs.len() - i,
        {
            proof {
                lemma_ready_units_next(self@, i as int);
            }
            if self.ready_at(i) {
                let unit = self.jobs[i].unit;
                let mut seen = false;
                let mut k: usize = 0;
                while k < i
                    invariant
                        k <= i,
                        i < self.jobs.len(),
                        unit == self.jobs@[i as int].unit,
                        seen <==> ready_units_upto(self@, k as int).contains(unit),
                    decreases i - k,
                {
                    proof {
                        lemma_ready_units_next(self@, k as int);
                    }
                    if self.jobs[k].unit == unit && self.ready_at(k) {
                        seen = true;
                    }
                    k = k + 1;
                }
                if !seen {
                    n = n + 1;
                }
            }
            i = i + 1;
        }
        n
    }

    /// Whether any unit is ready, so that a run is worth while.
    pub fn is_ready(&self) -> (ready: bool)
        requires
            self.wf(),
        ensures
            ready == (ready_units(self@).len() > 0),
    {
        self.ready_len() > 0
    }
}

/// Whether a job of the stage is on the unit of `job` and contradicts it.
pub open spec fn stage_conflicts(stage: Seq<Job>, job: Job) -> bool {
    exists|k: int|
        0 <= k < stage.len() && (#[trigger] stage[k]).unit == job.unit && job_is_conflict_spec(
            job.kind,
            stage[k].kind,
        )
}

/// Whether no two jobs of the stage contradict each other.
pub open spec fn stage_consistent(stage: Seq<Job>) -> bool {
    forall|k: int| 0 <= k < stage.len() ==> !stage_conflicts(stage, #[trigger] stage[k])
}

/// Whether the stage contradicts a job of `jobs`, queued or under way.
pub open spec fn stage_destructive(stage: Seq<Job>, jobs: Seq<Job>) -> bool {
    exists|i: int| 0 <= i < jobs.len() && stage_conflicts(stage, #[trigger] jobs[i])
}

/// Whether the stage may be committed to `jobs` in `mode`: it is consistent in
/// itself, and in `JobFail` mode it contradicts nothing that is there already.
pub open spec fn stage_accepted(stage: Seq<Job>, jobs: Seq<Job>, mode: JobMode) -> bool {
    stage_consistent(stage) && (mode == JobMode::JobFail ==> !stage_destructive(stage, jobs))
}

/// The test that a queued job passes which the stage supersedes.
pub open spec fn superseded_by(stage: Seq<Job>) -> spec_fn(Job) -> bool {
    |j: Job| j.is_waiting() && stage_conflicts(stage, j)
}

/// The test that a job passes which the stage does not supersede.
pub open spec fn not_superseded_by(stage: Seq<Job>) -> spec_fn(Job) -> bool {
    |j: Job| !(j.is_waiting() && stage_conflicts(stage, j))
}

/// The test that a queued job passes for which the stage asks once more.
pub open spec fn merged_by(stage: Seq<Job>) -> spec_fn(Job) -> bool {
    |j: Job| j.is_waiting() && has_suspend(stage, j.unit, j.kind)
}

/// The test that a job of the stage passes for which nothing is queued among `jobs`.
pub open spec fn new_to(jobs: Seq<Job>) -> spec_fn(Job) -> bool {
    |j: Job| !has_suspend(jobs, j.unit, j.kind)
}

/// Two tables put one behind the other are a table, if they share no identity, the
/// second holds queued jobs only, and no request is queued in both.
pub proof fn lemma_wf_concat(a: Seq<Job>, b: Seq<Job>)
    requires
        jobs_wf(a),
        jobs_wf(b),
        ids_apart(a, b),
        all_waiting(b),
        forall|j: int| 0 <= j < b.len() ==> !has_suspend(a, (#[trigger] b[j]).unit, b[j].kind),
    ensures
        jobs_wf(a + b),
        wait_count(a + b) == wait_count(a) + b.len(),
        run_count(a + b) == run_count(a),
{
    let t = a + b;
    let n = a.len() as int;
    assert forall|i: int, j: int| 0 <= i < j < t.len() implies (#[trigger] t[i]).id != (
    #[trigger] t[j]).id by {
        if j < n {
            assert(a[i].id != a[j].id);
        } else if i < n {
            assert(a[i].id != b[j - n].id);
        } else {
            assert(b[i - n].id != b[j - n].id);
        }
    }
    assert forall|i: int, j: int| 0 <= i < j < t.len() implies !((#[trigger] t[i]).unit == (
    #[trigger] t[j]).unit && t[i].is_running() && t[j].is_running()) by {
        if j < n {
            assert(!(a[i].unit == a[j].unit && a[i].is_running() && a[j].is_running()));
        } else {
            assert(b[j - n].is_waiting());
        }
    }
    assert forall|i: int, j: int| 0 <= i < j < t.len() implies !((#[trigger] t[i]).unit == (
    #[trigger] t[j]).unit && t[i].kind == t[j].kind && t[i].is_waiting()
        && t[j].is_waiting()) by {
        if j < n {
            assert(!(a[i].unit == a[j].unit && a[i].kind == a[j].kind && a[i].is_waiting()
                && a[j].is_waiting()));
        } else if i < n {
            assert(!has_suspend(a, b[j - n].unit, b[j - n].kind));
            assert(!(a[i].unit == b[j - n].unit && a[i].kind == b[j - n].kind
                && a[i].is_waiting()));
        } else {
            assert(!(b[i - n].unit == b[j - n].unit && b[i - n].kind == b[j - n].kind
                && b[i - n].is_waiting() && b[j - n].is_waiting()));
        }
    }
    assert forall|i: int| 0 <= i < t.len() && (#[trigger] t[i]).is_waiting() implies t[i].hold
        == JobHold::JobFree by {
        if i < n {
            assert(a[i].is_waiting() ==> a[i].hold == JobHold::JobFree);
        } else {
            assert(b[i - n].is_waiting() ==> b[i - n].hold == JobHold::JobFree);
        }
    }
    Seq::filter_distributes_over_add(a, b, waiting());
    Seq::filter_distributes_over_add(a, b, running());
    lemma_counts_cover(b);
    lemma_counts_cover(a);
    lemma_counts_cover(a + b);
}

impl JobTable {
    fn conflicts_with(&self, job: &Job) -> (yes: bool)
        ensures
            yes == stage_conflicts(self@, *job),
    {
        let mut k: usize = 0;
        while k < self.jobs.len()
            invariant
                k <= self.jobs.len(),
                forall|m: int|
                    0 <= m < k ==> !((#[trigger] self.jobs@[m]).unit == job.unit
                        && job_is_conflict_spec(job.kind, self.jobs@[m].kind)),
            decreases self.jobs.len() - k,
        {
            if self.jobs[k].unit == job.unit && job_is_conflict(job.kind, self.jobs[k].kind) {
                return true;
            }
            k = k + 1;
        }
        false
    }

    /// Whether two jobs of this table contradict each other.
    pub fn is_suspends_conflict(&self) -> (conflict: bool)
        ensures
            conflict == !stage_consistent(self@),
    {
        let mut k: usize = 0;
        while k < self.jobs.len()
            invariant
                k <= self.jobs.len(),
                forall|m: int| 0 <= m < k ==> !stage_conflicts(self@, #[trigger] self.jobs@[m]),
            decreases self.jobs.len() - k,
        {
            if self.conflicts_with(&self.jobs[k]) {
                return true;
            }
            k = k + 1;
        }
        false
    }

    /// Whether a job of this table contradicts a job of `other`, queued or under way.
    pub fn is_suspends_conflict_with(&self, other: &JobTable) -> (conflict: bool)
        ensures
            conflict == stage_destructive(self@, other@),
    {
        let mut i: usize = 0;
        while i < other.jobs.len()
            invariant
                i <= other.jobs.len(),
                forall|m: int| 0 <= m < i ==> !stage_conflicts(self@, #[trigger] other.jobs@[m]),
            decreases other.jobs.len() - i,
        {
            if self.conflicts_with(&other.jobs[i]) {
                return true;
            }
            i = i + 1;
        }
        false
    }

    /// Merges the jobs of `stage` into this table, all of them or none.
    ///
    /// A stage that is not accepted changes nothing. Of an accepted stage, a job for
    /// which the same operation is queued already is not queued again: the queued job
    /// is reported as updated. Every other job of the stage is added behind the jobs
    /// that are there. A queued job that a job of the stage contradicts is deleted.
    /// Jobs under way are never touched. The three lists that come back are the added,
    /// the deleted and the updated jobs.
    pub fn commit(&mut self, stage: &JobTable, mode: JobMode) -> (res: Result<
        (Vec<Job>, Vec<Job>, Vec<Job>),
        JobErrno,
    >)
        requires
            old(self).wf(),
            stage.wf(),
            all_waiting(stage@),
            ids_apart(old(self)@, stage@),
        ensures
            final(self).wf(),
            res.is_ok() <==> stage_accepted(stage@, old(self)@, mode),
            match res {
                Err(e) => e == JobErrno::JobErrInput && final(self)@ == old(self)@,
                Ok((adds, dels, updates)) => {
                    &&& adds@ == stage@.filter(new_to(old(self)@))
                    &&& dels@ == old(self)@.filter(superseded_by(stage@))
                    &&& updates@ == old(self)@.filter(merged_by(stage@))
                    &&& final(self)@ == old(self)@.filter(not_superseded_by(stage@)) + adds@
                    &&& wait_count(final(self)@) + dels@.len() == wait_count(old(self)@)
                        + adds@.len()
                    &&& run_count(final(self)@) == run_count(old(self)@)
                    &&& dels@.len() <= wait_count(old(self)@)
                    &&& forall|j: Job| !(dels@.contains(j) && updates@.contains(j))
                    &&& forall|j: Job| adds@.contains(j) ==> !has_id(old(self)@, j.id)
                    &&& stage@.len() == 0 ==> final(self)@ == old(self)@ && adds@.len() == 0
                        && dels@.len() == 0 && updates@.len() == 0
                },
            },
    {
        if stage.is_suspends_conflict() {
            return Err(JobErrno::JobErrInput);
        }
        if mode == JobMode::JobFail && stage.is_suspends_conflict_with(self) {
            return Err(JobErrno::JobErrInput);
        }
        let ghost old_jobs = self.jobs@;
        let ghost drop = superseded_by(stage@);
        let ghost keep = not_superseded_by(stage@);
        let ghost merge = merged_by(stage@);
        let ghost fresh = new_to(old_jobs);
        let mut kept: Vec<Job> = Vec::new();
        let mut dels: Vec<Job> = Vec::new();
        let mut updates: Vec<Job> = Vec::new();
        let mut i: usize = 0;
        while i < self.jobs.len()
            invariant
                i <= self.jobs.len(),
                self.jobs@ == old_jobs,
                drop == superseded_by(stage@),
                keep == not_superseded_by(stage@),
                merge == merged_by(stage@),
                kept@ == old_jobs.take(i as int).filter(keep),
                dels@ == old_jobs.take(i as int).filter(drop),
                updates@ == old_jobs.take(i as int).filter(merge),
            decreases self.jobs.len() - i,
        {
            let job = self.jobs[i];
            proof {
                lemma_filter_take_next(old_jobs, keep, i as int);
                lemma_filter_take_next(old_jobs, drop, i as int);
                lemma_filter_take_next(old_jobs, merge, i as int);
            }
            if job.stage == JobStage::JobWait && stage.conflicts_with(&job) {
                dels.push(job);
            } else {
                kept.push(job);
            }
            if job.stage == JobStage::JobWait && stage.find_suspend(job.unit, job.kind).is_some() {
                updates.push(job);
            }
            i = i + 1;
        }
        let mut adds: Vec<Job> = Vec::new();
        let mut k: usize = 0;
        while k < stage.jobs.len()
            invariant
                k <= stage.jobs.len(),
                self.jobs@ == old_jobs,
                fresh == new_to(old_jobs),
                adds@ == stage.jobs@.take(k as int).filter(fresh),
            decreases stage.jobs.len() - k,
        {
            let job = stage.jobs[k];
            proof {
                lemma_filter_take_next(stage.jobs@, fresh, k as int);
            }
            if self.find_suspend(job.unit, job.kind).is_none() {
                adds.push(job);
            }
            k = k + 1;
        }
        proof {
            assert(old_jobs.take(i as int) =~= old_jobs);
            assert(stage@.take(k as int) =~= stage@);
            lemma_commit(old_jobs, stage@);
        }
        let mut all = kept;
        let mut tail = adds.clone();
        proof {
            assert(tail@ =~= adds@);
        }
        all.append(&mut tail);
        self.jobs = all;
        Ok((adds, dels, updates))
    }
}

/// What a commit of a consistent stage leaves is a table, and the lists that it
/// reports account for every change of the counts.
pub proof fn lemma_commit(jobs: Seq<Job>, stage: Seq<Job>)
    requires
        jobs_wf(jobs),
        jobs_wf(stage),
        all_waiting(stage),
        ids_apart(jobs, stage),
        stage_consistent(stage),
    ensures
        ({
            let kept = jobs.filter(not_superseded_by(stage));
            let dels = jobs.filter(superseded_by(stage));
            let adds = stage.filter(new_to(jobs));
            let updates = jobs.filter(merged_by(stage));
            &&& jobs_wf(kept + adds)
            &&& wait_count(kept + adds) + dels.len() == wait_count(jobs) + adds.len()
            &&& run_count(kept + adds) == run_count(jobs)
            &&& dels.len() <= wait_count(jobs)
            &&& forall|j: Job| !(dels.contains(j) && updates.contains(j))
            &&& forall|j: Job| adds.contains(j) ==> !has_id(jobs, j.id)
            &&& stage.len() == 0 ==> kept == jobs && adds.len() == 0 && dels.len() == 0
                && updates.len() == 0
        }),
{
    let keep = not_superseded_by(stage);
    let drop = superseded_by(stage);
    let kept = jobs.filter(keep);
    let dels = jobs.filter(drop);
    let adds = stage.filter(new_to(jobs));
    let updates = jobs.filter(merged_by(stage));
    lemma_take_out(jobs, keep, drop);
    lemma_wf_filter(stage, new_to(jobs));
    let at_kept = lemma_filter_positions(jobs, keep);
    let at_dels = lemma_filter_positions(jobs, drop);
    let at_adds = lemma_filter_positions(stage, new_to(jobs));
    let at_upd = lemma_filter_positions(jobs, merged_by(stage));
    assert(ids_apart(kept, adds)) by {
        assert forall|i: int, j: int| 0 <= i < kept.len() && 0 <= j < adds.len() implies (
        #[trigger] kept[i]).id != (#[trigger] adds[j]).id by {
            assert(kept[i] == jobs[at_kept[i]] && adds[j] == stage[at_adds[j]]);
        }
    }
    assert forall|j: int| 0 <= j < adds.len() implies !has_suspend(
        kept,
        (#[trigger] adds[j]).unit,
        adds[j].kind,
    ) by {
        assert(new_to(jobs)(stage[at_adds[j]]));
        assert(adds[j] == stage[at_adds[j]]);
        if has_suspend(kept, adds[j].unit, adds[j].kind) {
            let i = choose|i: int| 0 <= i < kept.len() && (#[trigger] kept[i]).unit == adds[j].unit
                && kept[i].kind == adds[j].kind && kept[i].is_waiting();
            assert(kept[i] == jobs[at_kept[i]]);
            assert(jobs[at_kept[i]].unit == adds[j].unit);
        }
    }
    lemma_wf_concat(kept, adds);
    // every deleted job was queued
    assert forall|k: int| 0 <= k < dels.len() implies waiting()(#[trigger] dels[k]) by {
        assert(drop(jobs[at_dels[k]]));
    }
    lemma_filter_all(dels, waiting());
    assert forall|k: int| 0 <= k < dels.len() implies !running()(#[trigger] dels[k]) by {
        assert(waiting()(dels[k]));
    }
    lemma_filter_none(dels, running());
    assert forall|j: Job| !(dels.contains(j) && updates.contains(j)) by {
        if dels.contains(j) && updates.contains(j) {
            let a = choose|a: int| 0 <= a < dels.len() && dels[a] == j;
            let b = choose|b: int| 0 <= b < updates.len() && updates[b] == j;
            assert(drop(jobs[at_dels[a]]));
            assert(merged_by(stage)(jobs[at_upd[b]]));
            assert(stage_conflicts(stage, j));
            assert(has_suspend(stage, j.unit, j.kind));
            let m = choose|m: int| 0 <= m < stage.len() && (#[trigger] stage[m]).unit == j.unit
                && stage[m].kind == j.kind && stage[m].is_waiting();
            let c = choose|c: int| 0 <= c < stage.len() && (#[trigger] stage[c]).unit == j.unit
                && job_is_conflict_spec(j.kind, stage[c].kind);
            assert(stage[c].unit == stage[m].unit && job_is_conflict_spec(
                stage[m].kind,
                stage[c].kind,
            ));
            assert(stage_conflicts(stage, stage[m]));
        }
    }
    assert forall|j: Job| adds.contains(j) implies !has_id(jobs, j.id) by {
        let a = choose|a: int| 0 <= a < adds.len() && adds[a] == j;
        assert(adds[a] == stage[at_adds[a]]);
        if has_id(jobs, j.id) {
            let i = choose|i: int| 0 <= i < jobs.len() && (#[trigger] jobs[i]).id == j.id;
            assert(jobs[i].id != stage[at_adds[a]].id);
        }
    }
    if stage.len() == 0 {
        assert forall|i: int| 0 <= i < jobs.len() implies keep(#[trigger] jobs[i]) by {}
        lemma_filter_all(jobs, keep);
        assert forall|i: int| 0 <= i < jobs.len() implies !drop(#[trigger] jobs[i]) by {}
        lemma_filter_none(jobs, drop);
        assert forall|i: int| 0 <= i < jobs.len() implies !merged_by(stage)(#[trigger] jobs[i]) by {}
        lemma_filter_none(jobs, merged_by(stage));
    }
}

/// In a table, the job at a position is the only one with its identity.
pub proof fn lemma_id_at(s: Seq<Job>, i: int)
    requires
        jobs_wf(s),
        0 <= i < s.len(),
    ensures
        forall|k: int| 0 <= k < s.len() && (#[trigger] s[k]).id == s[i].id ==> k == i,
{
    assert forall|k: int| 0 <= k < s.len() && (#[trigger] s[k]).id == s[i].id implies k == i by {
        if k < i {
            assert(s[k].id != s[i].id);
        }
        if i < k {
            assert(s[i].id != s[k].id);
        }
    }
}

} // verus!
