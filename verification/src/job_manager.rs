//! The job manager: it owns the table of jobs, turns requests into committed
//! transactions, hands the jobs that are due to their units one at a time, and takes in
//! what the units report back.
use crate::job_alloc::JobAlloc;
use crate::job_entry::{
    job_is_conflict_spec, job_process_unit, job_process_unit_spec, job_trigger_result,
    job_trigger_result_spec, Job, JobConf, JobErrno, JobHold, JobInfo, JobKind, JobResult, JobStage,
    UnitActionError,
};
use crate::job_notify::{
    job_notify_event, job_notify_event_spec, job_notify_result, job_notify_result_spec,
};
use crate::job_stat::JobStat;
use crate::job_table::{
    all_waiting, conf_of_job, conf_seq, confs, has_id, has_suspend, has_trigger, ids_apart,
    ids_below, job_held, job_is_due, job_is_runnable, job_requeued, job_requeues, job_triggered,
    jobs_wf, lemma_counts_cover, lemma_trigger_exists, lemma_trigger_index, lemma_wf_filter,
    merged_by, new_to, not_of_unit, not_superseded_by, not_suspend_of, ready_units, run_count,
    stage_accepted, stage_conflicts, stage_consistent, stage_destructive, superseded_by, trigger_at,
    trigger_index, wait_count, JobTable,
};
use crate::job_transaction::{
    affect_confs, affect_order, conf_at, expand_confs, expand_order, fallback_kept,
    job_trans_affect, job_trans_expand, job_trans_fallback, job_trans_verify, stage_grown,
};
use crate::seq_util::{
    lemma_filter_all, lemma_filter_none, lemma_filter_positions, lemma_map_values_push,
};
use crate::unit::{
    JobMode, UnitActiveState, UnitDb, UnitId, UnitNotifyFlags, UnitRelationAtom,
    UNIT_NOTIFY_WILL_AUTO_RESTART,
};
use vstd::prelude::*;

verus! {

/// The snapshots of `jobs`.
pub open spec fn infos_of(jobs: Seq<Job>) -> Seq<JobInfo> {
    jobs.map_values(|j: Job| j.info())
}

pub fn jobs_2_jobinfo(jobs: &Vec<Job>) -> (infos: Vec<JobInfo>)
    ensures
        infos@ == infos_of(jobs@),
{
    let mut infos: Vec<JobInfo> = Vec::new();
    let ghost snap = |j: Job| j.info();
    let mut i: usize = 0;
    proof {
        assert(jobs@.take(0).map_values(snap) =~= Seq::<JobInfo>::empty());
    }
    while i < jobs.len()
        invariant
            i <= jobs.len(),
            snap == |j: Job| j.info(),
            infos@ == jobs@.take(i as int).map_values(snap),
        decreases jobs.len() - i,
    {
        proof {
            lemma_map_values_push(jobs@.take(i as int), snap, jobs@[i as int]);
            assert(jobs@.take(i + 1) =~= jobs@.take(i as int).push(jobs@[i as int]));
        }
        infos.push(JobInfo::map(&jobs[i]));
        i = i + 1;
    }
    proof {
        assert(jobs@.take(i as int) =~= jobs@);
    }
    infos
}

/// What a transaction did to the table, for a caller who wants to know.
pub struct JobAffect {
    pub adds: Vec<JobInfo>,
    pub dels: Vec<JobInfo>,
    pub updates: Vec<JobInfo>,
    /// Whether anything is recorded at all.
    pub interested: bool,
}

impl JobAffect {
    pub fn new(interested: bool) -> (affect: JobAffect)
        ensures
            affect.interested == interested,
            affect.adds@.len() == 0,
            affect.dels@.len() == 0,
            affect.updates@.len() == 0,
    {
        JobAffect { adds: Vec::new(), dels: Vec::new(), updates: Vec::new(), interested }
    }

    /// Whether `now` is `before` with the snapshots of the three lists of a
    /// transaction behind what was recorded, or `before` itself if nothing is recorded.
    pub open spec fn recorded(
        before: &JobAffect,
        now: &JobAffect,
        adds: Seq<Job>,
        dels: Seq<Job>,
        updates: Seq<Job>,
    ) -> bool {
        &&& now.interested == before.interested
        &&& now.adds@ == if before.interested {
            before.adds@ + infos_of(adds)
        } else {
            before.adds@
        }
        &&& now.dels@ == if before.interested {
            before.dels@ + infos_of(dels)
        } else {
            before.dels@
        }
        &&& now.updates@ == if before.interested {
            before.updates@ + infos_of(updates)
        } else {
            before.updates@
        }
    }

    /// Whether `now` records what `before` records.
    pub open spec fn same(before: &JobAffect, now: &JobAffect) -> bool {
        &&& now.interested == before.interested
        &&& now.adds@ == before.adds@
        &&& now.dels@ == before.dels@
        &&& now.updates@ == before.updates@
    }

    pub fn record(&mut self, jobs: &(Vec<Job>, Vec<Job>, Vec<Job>))
        ensures
            JobAffect::recorded(old(self), final(self), jobs.0@, jobs.1@, jobs.2@),
    {
        if self.interested {
            let mut adds = jobs_2_jobinfo(&jobs.0);
            let mut dels = jobs_2_jobinfo(&jobs.1);
            let mut updates = jobs_2_jobinfo(&jobs.2);
            self.adds.append(&mut adds);
            self.dels.append(&mut dels);
            self.updates.append(&mut updates);
        }
    }
}

/// Whether a request may be made in a mode: isolating is for the start of a unit that
/// allows it, and triggering is for a stop.
pub open spec fn job_trans_input_ok(db: &UnitDb, config: JobConf, mode: JobMode) -> bool {
    &&& mode == JobMode::JobIsolate ==> config.kind == JobKind::JobStart && db.allows_isolate(
        config.unit,
    )
    &&& mode == JobMode::JobTrigger ==> config.kind == JobKind::JobStop
}

pub fn job_trans_check_input(db: &UnitDb, config: &JobConf, mode: JobMode) -> (res: Result<
    (),
    JobErrno,
>)
    ensures
        res.is_ok() <==> job_trans_input_ok(db, *config, mode),
        res.is_err() ==> res == Err::<(), JobErrno>(JobErrno::JobErrInput),
{
    let kind = config.get_kind();
    let unit = config.get_unit();
    if mode == JobMode::JobIsolate {
        if kind != JobKind::JobStart {
            return Err(JobErrno::JobErrInput);
        }
        if !db.allow_isolate(unit) {
            return Err(JobErrno::JobErrInput);
        }
    }
    if mode == JobMode::JobTrigger {
        if kind != JobKind::JobStop {
            return Err(JobErrno::JobErrInput);
        }
    }
    Ok(())
}

/// A state change that a unit reported: from `os` to `ns`, with `flags`.
#[derive(Clone, Copy, Debug, PartialEq, Eq, Structural)]
pub struct JobFinish {
    pub unit: UnitId,
    pub os: UnitActiveState,
    pub ns: UnitActiveState,
    pub flags: UnitNotifyFlags,
}

/// What there is to know of a job manager.
pub struct JobView {
    /// The jobs of the table, in table order.
    pub jobs: Seq<Job>,
    /// The largest job identity given out so far.
    pub last_id: nat,
    /// The job that was handed out and whose unit has not answered yet.
    pub running: Option<JobInfo>,
    /// The state change that came in while the unit was about to answer.
    pub text: Option<JobFinish>,
    /// The notices that are owed to units: the first of each pair is to be told that
    /// a job of the second has ended.
    pub notices: Seq<(UnitId, UnitId)>,
}

pub struct JobManagerData {
    ja: JobAlloc,
    jobs: JobTable,
    stage: JobTable,
    running: Option<JobInfo>,
    text: Option<JobFinish>,
    stat: JobStat,
    notices: Vec<(UnitId, UnitId)>,
}

impl View for JobManagerData {
    type V = JobView;

    closed spec fn view(&self) -> JobView {
        JobView {
            jobs: self.jobs@,
            last_id: self.ja.last(),
            running: self.running,
            text: self.text,
            notices: self.notices@,
        }
    }
}

/// Whether `staged` is what the request `config` in `mode` puts on an empty stage when
/// the identities so far end at `first`: `expanded` holds one job for each request
/// that `config` implies, and `staged` holds behind these what the mode adds.
pub open spec fn trans_staged(
    db: &UnitDb,
    config: JobConf,
    mode: JobMode,
    first: nat,
    expanded: Seq<Job>,
    staged: Seq<Job>,
) -> bool {
    &&& jobs_wf(expanded)
    &&& all_waiting(expanded)
    &&& stage_grown(Seq::empty(), expanded, first)
    &&& confs(expanded) == expand_confs(db, mode, Set::empty(), config)
    &&& jobs_wf(staged)
    &&& all_waiting(staged)
    &&& stage_grown(expanded, staged, first + expanded.len())
    &&& confs(staged) == confs(expanded) + affect_confs(db, confs(expanded), config, mode)
    &&& ids_below(staged, first + staged.len())
}

/// The table after the stage was committed to it.
pub open spec fn commit_jobs(jobs: Seq<Job>, staged: Seq<Job>) -> Seq<Job> {
    jobs.filter(not_superseded_by(staged)) + staged.filter(new_to(jobs))
}

/// Whether `v1` is `v0` after the transaction for `config` in `mode` was staged as
/// `staged` and committed.
pub open spec fn exec_commits(
    db: &UnitDb,
    v0: JobView,
    config: JobConf,
    mode: JobMode,
    expanded: Seq<Job>,
    staged: Seq<Job>,
    v1: JobView,
) -> bool {
    &&& job_trans_input_ok(db, config, mode)
    &&& trans_staged(db, config, mode, v0.last_id, expanded, staged)
    &&& stage_accepted(staged, v0.jobs, mode)
    &&& v1 == (JobView {
        jobs: commit_jobs(v0.jobs, staged),
        last_id: v0.last_id + staged.len(),
        ..v0
    })
}

/// The requests that the transaction for `config` in `mode` stages: what `config`
/// implies, and what the mode adds to that.
pub open spec fn trans_confs(db: &UnitDb, config: JobConf, mode: JobMode) -> Set<JobConf> {
    let expanded = expand_confs(db, mode, Set::empty(), config);
    expanded + affect_confs(db, expanded, config, mode)
}

/// Whether a request among `set` is for `unit` and contradicts the operation `kind`.
pub open spec fn confs_conflict(set: Set<JobConf>, unit: UnitId, kind: JobKind) -> bool {
    exists|other: JobKind|
        set.contains(#[trigger] conf_at(unit, other)) && job_is_conflict_spec(kind, other)
}

/// Whether no two requests among `set` contradict each other.
pub open spec fn confs_consistent(set: Set<JobConf>) -> bool {
    forall|c: JobConf| #[trigger] set.contains(c) ==> !confs_conflict(set, c.unit, c.kind)
}

/// Whether a request among `set` contradicts a job of `jobs`, queued or under way.
pub open spec fn confs_destructive(set: Set<JobConf>, jobs: Seq<Job>) -> bool {
    exists|i: int|
        0 <= i < jobs.len() && confs_conflict(set, (#[trigger] jobs[i]).unit, jobs[i].kind)
}

/// Whether a transaction that stages the requests `set` is accepted by the table
/// `jobs` in `mode`.
pub open spec fn confs_accepted(set: Set<JobConf>, jobs: Seq<Job>, mode: JobMode) -> bool {
    confs_consistent(set) && (mode == JobMode::JobFail ==> !confs_destructive(set, jobs))
}

/// Whether the identities that are left after `last` are too few to give one to each
/// request among `set`: some requests of the set, no two of them the same, are more
/// than there are identities.
pub open spec fn ids_short(set: Set<JobConf>, last: nat) -> bool {
    exists|q: Seq<JobConf>|
        #[trigger] q.no_duplicates() && (forall|i: int|
            0 <= i < q.len() ==> set.contains(#[trigger] q[i])) && last + q.len() > u32::MAX
}

/// How the transaction for `config` in `mode` ends when the manager is in state `v0`.
///
/// It is turned down with `JobErrInput` if the request may not be made in the mode;
/// else with `JobErrInternel` if the identities do not suffice for the requests that
/// it stages; else with `JobErrInput` if the table does not accept those requests.
/// Otherwise it is carried out.
pub open spec fn exec_result(db: &UnitDb, v0: JobView, config: JobConf, mode: JobMode) -> Result<
    (),
    JobErrno,
> {
    let staged = trans_confs(db, config, mode);
    if !job_trans_input_ok(db, config, mode) {
        Err(JobErrno::JobErrInput)
    } else if ids_short(staged, v0.last_id) {
        Err(JobErrno::JobErrInternel)
    } else if !confs_accepted(staged, v0.jobs, mode) {
        Err(JobErrno::JobErrInput)
    } else {
        Ok(())
    }
}

/// The largest identity that is given out once the transaction for `config` in `mode`
/// was turned down: none is used up if the request may not be made in the mode, all
/// are if they do not suffice, and one for each request that was staged otherwise.
pub open spec fn rejected_last(db: &UnitDb, v0: JobView, config: JobConf, mode: JobMode) -> nat {
    let staged = trans_confs(db, config, mode);
    if !job_trans_input_ok(db, config, mode) {
        v0.last_id
    } else if ids_short(staged, v0.last_id) {
        u32::MAX as nat
    } else {
        v0.last_id + staged.len()
    }
}

/// The requests that the transaction for `config` in `mode` stages, in the order in
/// which it stages them, when the identities so far end at `first`: first what
/// `config` implies, then what the mode adds to that.
pub open spec fn trans_order(db: &UnitDb, config: JobConf, mode: JobMode, first: nat) -> Seq<JobConf> {
    let fuel = (u32::MAX - first) as nat;
    let expanded = expand_order(db, mode, seq![config], Seq::empty(), fuel);
    affect_order(db, expanded, config, mode, (fuel - expanded.len()) as nat)
}

/// The jobs that are created for the requests `order`, one after the other, when the
/// identities so far end at `first`.
pub open spec fn jobs_of(first: nat, order: Seq<JobConf>) -> Seq<Job> {
    Seq::new(order.len(), |k: int| Job::fresh((first + k + 1) as u32, order[k]))
}

/// The jobs that the transaction for `config` in `mode` stages when the identities so
/// far end at `first`.
pub open spec fn trans_jobs(db: &UnitDb, config: JobConf, mode: JobMode, first: nat) -> Seq<Job> {
    jobs_of(first, trans_order(db, config, mode, first))
}

/// What the transaction for `config` in `mode` makes of `v0`: if it is carried out,
/// the jobs that it stages are committed to the table; if it is turned down, nothing
/// changes but the identities that are used up.
pub open spec fn exec_view(db: &UnitDb, v0: JobView, config: JobConf, mode: JobMode) -> JobView {
    if exec_result(db, v0, config, mode).is_ok() {
        let staged = trans_jobs(db, config, mode, v0.last_id);
        JobView { jobs: commit_jobs(v0.jobs, staged), last_id: v0.last_id + staged.len(), ..v0 }
    } else {
        JobView { last_id: rejected_last(db, v0, config, mode), ..v0 }
    }
}

/// A stage of queued jobs holds as many requests as jobs.
pub proof fn lemma_confs_len(staged: Seq<Job>)
    requires
        jobs_wf(staged),
        all_waiting(staged),
    ensures
        confs(staged).finite(),
        confs(staged).len() == staged.len(),
{
    let all = staged.map_values(conf_of_job());
    assert forall|i: int, j: int| 0 <= i < all.len() && 0 <= j < all.len() && i != j implies all[i]
        != all[j] by {
        if i < j {
            assert(!(staged[i].unit == staged[j].unit && staged[i].kind == staged[j].kind
                && staged[i].is_waiting() && staged[j].is_waiting()));
        } else {
            assert(!(staged[j].unit == staged[i].unit && staged[j].kind == staged[i].kind
                && staged[j].is_waiting() && staged[i].is_waiting()));
        }
    }
    assert(all.no_duplicates());
    all.unique_seq_to_set();
    vstd::seq_lib::seq_to_set_is_finite(all);
    assert forall|c: JobConf| confs(staged).contains(c) <==> all.to_set().contains(c) by {
        if confs(staged).contains(c) {
            let i = choose|i: int| 0 <= i < staged.len() && (#[trigger] staged[i]).conf() == c;
            assert(all[i] == c);
        }
        if all.to_set().contains(c) {
            let i = choose|i: int| 0 <= i < all.len() && all[i] == c;
            assert(staged[i].conf() == c);
        }
    }
    assert(confs(staged) =~= all.to_set());
}

/// A job of the stage contradicts a job exactly if a request of the stage does.
pub proof fn lemma_conflict_set(stage: Seq<Job>, unit: UnitId, kind: JobKind)
    ensures
        stage_conflicts(stage, Job::fresh(0, conf_at(unit, kind))) <==> confs_conflict(
            confs(stage),
            unit,
            kind,
        ),
        forall|job: Job|
            job.unit == unit && job.kind == kind ==> (#[trigger] stage_conflicts(stage, job)
                <==> confs_conflict(confs(stage), unit, kind)),
{
    let probe = Job::fresh(0, conf_at(unit, kind));
    if stage_conflicts(stage, probe) {
        let k = choose|k: int|
            0 <= k < stage.len() && (#[trigger] stage[k]).unit == probe.unit
                && job_is_conflict_spec(probe.kind, stage[k].kind);
        assert(stage[k].conf() == conf_at(unit, stage[k].kind));
        assert(confs(stage).contains(conf_at(unit, stage[k].kind)));
    }
    if confs_conflict(confs(stage), unit, kind) {
        let other = choose|other: JobKind|
            confs(stage).contains(#[trigger] conf_at(unit, other)) && job_is_conflict_spec(
                kind,
                other,
            );
        let k = choose|k: int| 0 <= k < stage.len() && (#[trigger] stage[k]).conf() == conf_at(
            unit,
            other,
        );
        assert(stage[k].unit == probe.unit && job_is_conflict_spec(probe.kind, stage[k].kind));
    }
    assert forall|job: Job| job.unit == unit && job.kind == kind implies (#[trigger] stage_conflicts(
        stage,
        job,
    ) <==> confs_conflict(confs(stage), unit, kind)) by {
        if stage_conflicts(stage, job) {
            let k = choose|k: int|
                0 <= k < stage.len() && (#[trigger] stage[k]).unit == job.unit
                    && job_is_conflict_spec(job.kind, stage[k].kind);
            assert(stage[k].unit == probe.unit && job_is_conflict_spec(probe.kind, stage[k].kind));
        }
        if stage_conflicts(stage, probe) {
            let k = choose|k: int|
                0 <= k < stage.len() && (#[trigger] stage[k]).unit == probe.unit
                    && job_is_conflict_spec(probe.kind, stage[k].kind);
            assert(stage[k].unit == job.unit && job_is_conflict_spec(job.kind, stage[k].kind));
        }
    }
}

/// A stage is accepted exactly if its requests are.
pub proof fn lemma_accepted_set(stage: Seq<Job>, jobs: Seq<Job>, mode: JobMode)
    ensures
        stage_accepted(stage, jobs, mode) <==> confs_accepted(confs(stage), jobs, mode),
{
    let set = confs(stage);
    if stage_consistent(stage) {
        assert forall|c: JobConf| #[trigger] set.contains(c) implies !confs_conflict(
            set,
            c.unit,
            c.kind,
        ) by {
            let k = choose|k: int| 0 <= k < stage.len() && (#[trigger] stage[k]).conf() == c;
            lemma_conflict_set(stage, c.unit, c.kind);
            assert(!stage_conflicts(stage, stage[k]));
        }
    }
    if confs_consistent(set) {
        assert forall|k: int| 0 <= k < stage.len() implies !stage_conflicts(
            stage,
            #[trigger] stage[k],
        ) by {
            lemma_conflict_set(stage, stage[k].unit, stage[k].kind);
            assert(set.contains(stage[k].conf()));
        }
    }
    if stage_destructive(stage, jobs) {
        let i = choose|i: int| 0 <= i < jobs.len() && stage_conflicts(stage, #[trigger] jobs[i]);
        lemma_conflict_set(stage, jobs[i].unit, jobs[i].kind);
        assert(confs_conflict(set, jobs[i].unit, jobs[i].kind));
    }
    if confs_destructive(set, jobs) {
        let i = choose|i: int|
            0 <= i < jobs.len() && confs_conflict(set, (#[trigger] jobs[i]).unit, jobs[i].kind);
        lemma_conflict_set(stage, jobs[i].unit, jobs[i].kind);
        assert(stage_conflicts(stage, jobs[i]));
    }
}

/// When a stage of queued jobs has used up the identities and a request of the
/// transaction is still not staged, the identities were too few for the transaction.
pub proof fn lemma_ids_short(stage: Seq<Job>, missing: JobConf, set: Set<JobConf>, last: nat)
    requires
        jobs_wf(stage),
        all_waiting(stage),
        forall|c: JobConf| confs(stage).contains(c) ==> set.contains(c),
        set.contains(missing),
        !confs(stage).contains(missing),
        last + stage.len() >= u32::MAX,
    ensures
        ids_short(set, last),
{
    let q = stage.map_values(conf_of_job()).push(missing);
    assert forall|i: int, j: int| 0 <= i < q.len() && 0 <= j < q.len() && i != j implies q[i]
        != q[j] by {
        if i < stage.len() && j < stage.len() {
            if i < j {
                assert(!(stage[i].unit == stage[j].unit && stage[i].kind == stage[j].kind
                    && stage[i].is_waiting() && stage[j].is_waiting()));
            } else {
                assert(!(stage[j].unit == stage[i].unit && stage[j].kind == stage[i].kind
                    && stage[j].is_waiting() && stage[i].is_waiting()));
            }
        } else if i < stage.len() {
            assert(stage[i].conf() == q[i]);
            assert(confs(stage).contains(q[i]));
        } else {
            assert(stage[j].conf() == q[j]);
            assert(confs(stage).contains(q[j]));
        }
    }
    assert(q.no_duplicates());
    assert forall|i: int| 0 <= i < q.len() implies set.contains(#[trigger] q[i]) by {
        if i < stage.len() {
            assert(stage[i].conf() == q[i]);
            assert(confs(stage).contains(q[i]));
        }
    }
}

/// When a stage holds a job for every request of the transaction and the identities
/// sufficed for it, they were not too few for the transaction.
pub proof fn lemma_ids_fit(staged: Seq<Job>, set: Set<JobConf>, last: nat)
    requires
        confs(staged) == set,
        last + staged.len() <= u32::MAX,
    ensures
        !ids_short(set, last),
{
    if ids_short(set, last) {
        let q = choose|q: Seq<JobConf>|
            #[trigger] q.no_duplicates() && (forall|i: int|
                0 <= i < q.len() ==> set.contains(#[trigger] q[i])) && last + q.len()
                > u32::MAX;
        let all = staged.map_values(conf_of_job());
        assert forall|c: JobConf| q.to_set().contains(c) implies all.to_set().contains(c) by {
            let i = choose|i: int| 0 <= i < q.len() && q[i] == c;
            assert(set.contains(q[i]));
            let k = choose|k: int| 0 <= k < staged.len() && (#[trigger] staged[k]).conf() == c;
            assert(all[k] == c);
        }
        assert(q.to_set().subset_of(all.to_set()));
        vstd::seq_lib::seq_to_set_is_finite(all);
        vstd::set_lib::lemma_len_subset(q.to_set(), all.to_set());
        q.unique_seq_to_set();
        all.lemma_cardinality_of_set();
    }
}

impl JobManagerData {
    /// The count of queued jobs that the statistics show.
    pub closed spec fn stat_wait(&self) -> nat {
        self.stat.wait()
    }

    /// The count of jobs under way that the statistics show.
    pub closed spec fn stat_run(&self) -> nat {
        self.stat.run()
    }

    /// What holds of the parts that no caller sees: between two calls the stage is
    /// empty.
    pub closed spec fn inv(&self) -> bool {
        self.stage@.len() == 0 && self.stage.wf()
    }

    /// What every call leaves true: the table is a table, no job has an identity that
    /// was not given out, and the statistics count what the table holds.
    pub open spec fn wf(&self) -> bool {
        &&& self.inv()
        &&& jobs_wf(self@.jobs)
        &&& ids_below(self@.jobs, self@.last_id)
        &&& self.stat_wait() == wait_count(self@.jobs)
        &&& self.stat_run() == run_count(self@.jobs)
    }

    pub fn new() -> (data: JobManagerData)
        ensures
            data.wf(),
            data@.jobs.len() == 0,
            data@.last_id == 0,
            data@.running.is_none(),
            data@.text.is_none(),
            data@.notices.len() == 0,
    {
        let data = JobManagerData {
            ja: JobAlloc::new(),
            jobs: JobTable::new(),
            stage: JobTable::new(),
            running: None,
            text: None,
            stat: JobStat::new(),
            notices: Vec::new(),
        };
        proof {
            lemma_counts_cover(data.jobs@);
        }
        data
    }

    /// A manager without jobs whose identities go on behind `last`.
    pub fn with_ids_from(last: u32) -> (data: JobManagerData)
        ensures
            data.wf(),
            data@.jobs.len() == 0,
            data@.last_id == last,
            data@.running.is_none(),
            data@.text.is_none(),
            data@.notices.len() == 0,
    {
        let data = JobManagerData {
            ja: JobAlloc::from_last(last),
            jobs: JobTable::new(),
            stage: JobTable::new(),
            running: None,
            text: None,
            stat: JobStat::new(),
            notices: Vec::new(),
        };
        proof {
            lemma_counts_cover(data.jobs@);
        }
        data
    }

    /// The statistics always add up to the size of the table.
    pub proof fn lemma_stat_total(&self)
        requires
            self.wf(),
        ensures
            self.stat_wait() + self.stat_run() == self@.jobs.len(),
    {
        lemma_counts_cover(self@.jobs);
    }

    /// The count of queued jobs that the statistics show.
    pub fn stat_wait_len(&self) -> (n: usize)
        ensures
            n == self.stat_wait(),
    {
        self.stat.get_wait()
    }

    /// The count of jobs under way that the statistics show.
    pub fn stat_run_len(&self) -> (n: usize)
        ensures
            n == self.stat_run(),
    {
        self.stat.get_run()
    }

    /// The job that was handed out and whose unit has not answered yet.
    pub fn running_job(&self) -> (job: Option<JobInfo>)
        ensures
            job == self@.running,
    {
        self.running
    }

    /// The number of jobs in the table.
    pub fn jobs_len(&self) -> (n: usize)
        ensures
            n == self@.jobs.len(),
    {
        self.jobs.len()
    }

    /// The number of units that are ready.
    pub fn jobs_ready_len(&self) -> (n: usize)
        requires
            self.wf(),
        ensures
            n == ready_units(self@.jobs).len(),
    {
        self.jobs.ready_len()
    }

    pub fn get_jobinfo(&self, id: u32) -> (found: Option<JobInfo>)
        ensures
            found.is_some() <==> has_id(self@.jobs, id),
            match found {
                Some(info) => exists|i: int|
                    0 <= i < self@.jobs.len() && (#[trigger] self@.jobs[i]).id == id && info
                        == self@.jobs[i].info(),
                None => true,
            },
    {
        self.jobs.get(id)
    }

    /// Whether any unit is ready, so that a run is worth while.
    pub fn is_jobs_ready(&self) -> (ready: bool)
        requires
            self.wf(),
        ensures
            ready == (ready_units(self@.jobs).len() > 0),
    {
        self.jobs.is_ready()
    }

    /// The stop that is queued for `unit`, if one is.
    pub fn get_suspends(&self, unit: UnitId) -> (found: Option<JobInfo>)
        ensures
            found.is_some() <==> has_suspend(self@.jobs, unit, JobKind::JobStop),
            match found {
                Some(info) => exists|i: int|
                    0 <= i < self@.jobs.len() && info == (#[trigger] self@.jobs[i]).info()
                        && info.unit == unit && info.kind == JobKind::JobStop && info.stage
                        == JobStage::JobWait,
                None => true,
            },
    {
        self.jobs.get_suspend(unit, JobKind::JobStop)
    }

    /// The notices that are owed to units. They are handed over, and none is owed any
    /// more.
    pub fn take_notices(&mut self) -> (notices: Vec<(UnitId, UnitId)>)
        requires
            old(self).wf(),
        ensures
            final(self).wf(),
            notices@ == old(self)@.notices,
            final(self)@ == (JobView { notices: Seq::empty(), ..old(self)@ }),
    {
        let mut notices: Vec<(UnitId, UnitId)> = Vec::new();
        notices.append(&mut self.notices);
        proof {
            assert(notices@ =~= old(self)@.notices);
            assert(self.notices@ =~= Seq::<(UnitId, UnitId)>::empty());
        }
        notices
    }

    /// Carries out one transaction: checks the request, expands it on the stage, adds
    /// what the mode asks for, checks the stage against the table and commits it.
    ///
    /// Whether the request is carried out or turned down, and why, is what
    /// `exec_result` says. A request that is turned down changes nothing but the
    /// identities that are used up. A request that is carried out changes the table as
    /// `commit_jobs` says, and is recorded in `affect`.
    pub fn exec(&mut self, db: &UnitDb, config: &JobConf, mode: JobMode, affect: &mut JobAffect) -> (res:
        Result<(), JobErrno>)
        requires
            old(self).wf(),
        ensures
            final(self).wf(),
            res == exec_result(db, old(self)@, *config, mode),
            final(self)@ == exec_view(db, old(self)@, *config, mode),
            match res {
                Ok(_) => {
                    let staged = trans_jobs(db, *config, mode, old(self)@.last_id);
                    &&& exists|expanded: Seq<Job>| #[trigger]
                        exec_commits(
                            db,
                            old(self)@,
                            *config,
                            mode,
                            expanded,
                            staged,
                            final(self)@,
                        )
                    &&& JobAffect::recorded(
                        old(affect),
                        final(affect),
                        staged.filter(new_to(old(self)@.jobs)),
                        old(self)@.jobs.filter(superseded_by(staged)),
                        old(self)@.jobs.filter(merged_by(staged)),
                    )
                },
                Err(_) => JobAffect::same(old(affect), final(affect)),
            },
    {
        if let Err(e) = job_trans_check_input(db, config, mode) {
            return Err(e);
        }
        let ghost v0 = self@;
        self.stage.clear();
        proof {
            assert(self.stage@ =~= Seq::<Job>::empty());
            assert(confs(self.stage@) =~= Set::<JobConf>::empty());
            assert(conf_seq(self.stage@) =~= Seq::<JobConf>::empty());
        }
        let ghost all = trans_confs(db, *config, mode);
        let expand_res = job_trans_expand(&mut self.stage, &mut self.ja, db, config, mode);
        let ghost expanded = self.stage@;
        if let Err(e) = expand_res {
            proof {
                let missing = choose|c: JobConf|
                    #[trigger] expand_confs(db, mode, Set::empty(), *config).contains(c)
                        && !confs(expanded).contains(c);
                lemma_ids_short(expanded, missing, all, v0.last_id);
            }
            self.stage.clear();
            return Err(e);
        }
        proof {
            assert(confs(expanded) =~= expand_confs(db, mode, Set::empty(), *config));
        }
        let affect_res = job_trans_affect(&mut self.stage, &mut self.ja, db, config, mode);
        let ghost staged = self.stage@;
        if let Err(e) = affect_res {
            proof {
                let missing = choose|c: JobConf|
                    #[trigger] affect_confs(db, confs(expanded), *config, mode).contains(c)
                        && !confs(staged).contains(c);
                lemma_ids_short(staged, missing, all, v0.last_id);
            }
            self.stage.clear();
            return Err(e);
        }
        proof {
            self.ja.lemma_last_bound();
            assert(confs(staged) =~= all);
            lemma_ids_fit(staged, all, v0.last_id);
            lemma_accepted_set(staged, v0.jobs, mode);
            lemma_confs_len(staged);
            assert(conf_seq(staged) == trans_order(db, *config, mode, v0.last_id));
            assert(staged =~= trans_jobs(db, *config, mode, v0.last_id)) by {
                assert forall|k: int| 0 <= k < staged.len() implies staged[k] == Job::fresh(
                    (v0.last_id + k + 1) as u32,
                    conf_seq(staged)[k],
                ) by {
                    if k < expanded.len() {
                        assert(staged.take(expanded.len() as int)[k] == staged[k]);
                        assert(expanded[k].id == v0.last_id + k + 1);
                    } else {
                        assert(staged[k].id == v0.last_id + k + 1);
                    }
                }
            }
        }
        proof {
            assert forall|i: int, j: int|
                0 <= i < v0.jobs.len() && 0 <= j < staged.len() implies (#[trigger] v0.jobs[i]).id
                != (#[trigger] staged[j]).id by {
                if j < expanded.len() {
                    assert(staged.take(expanded.len() as int)[j] == staged[j]);
                    assert(expanded[j].id > v0.last_id);
                } else {
                    assert(staged[j].id > v0.last_id);
                }
            }
            assert(ids_apart(v0.jobs, staged));
        }
        if let Err(e) = job_trans_verify(&self.stage, &self.jobs, mode) {
            self.stage.clear();
            return Err(e);
        }
        let committed = self.jobs.commit(&self.stage, mode);
        self.stage.clear();
        match committed {
            Err(e) => Err(e),
            Ok(lists) => {
                proof {
                    self.jobs.lemma_len_bound();
                    lemma_counts_cover(self.jobs@);
                    lemma_wf_filter(v0.jobs, not_superseded_by(staged));
                    lemma_wf_filter(staged, new_to(v0.jobs));
                    assert(ids_below(staged, self.ja.last()));
                    assert(ids_below(v0.jobs.filter(not_superseded_by(staged)), v0.last_id));
                    assert(ids_below(staged.filter(new_to(v0.jobs)), self.ja.last()));
                    assert(exec_commits(db, v0, *config, mode, expanded, staged, self@));
                }
                self.stat.update_stage_wait(lists.1.len(), false);
                self.stat.update_stage_wait(lists.0.len(), true);
                affect.record(&lists);
                Ok(())
            },
        }
    }
}

/// What the transactions for `targets`, one after the other, make of `v0`. Each of
/// them is carried out or turned down by itself.
pub open spec fn exec_all(db: &UnitDb, v0: JobView, targets: Seq<(JobConf, JobMode)>) -> JobView
    decreases targets.len(),
{
    if targets.len() == 0 {
        v0
    } else {
        exec_view(
            db,
            exec_all(db, v0, targets.drop_last()),
            targets.last().0,
            targets.last().1,
        )
    }
}

/// One transaction more behind a row of transactions.
pub proof fn lemma_exec_all_push(
    db: &UnitDb,
    v0: JobView,
    targets: Seq<(JobConf, JobMode)>,
    next: (JobConf, JobMode),
)
    ensures
        exec_all(db, v0, targets.push(next)) == exec_view(
            db,
            exec_all(db, v0, targets),
            next.0,
            next.1,
        ),
{
    assert(targets.push(next).drop_last() =~= targets);
    assert(targets.push(next).last() == next);
}

/// Two rows of transactions, one behind the other.
pub proof fn lemma_exec_all_concat(
    db: &UnitDb,
    v0: JobView,
    first: Seq<(JobConf, JobMode)>,
    second: Seq<(JobConf, JobMode)>,
)
    ensures
        exec_all(db, v0, first + second) == exec_all(db, exec_all(db, v0, first), second),
    decreases second.len(),
{
    if second.len() == 0 {
        assert(first + second =~= first);
    } else {
        lemma_exec_all_concat(db, v0, first, second.drop_last());
        assert((first + second).drop_last() =~= first + second.drop_last());
        assert((first + second).last() == second.last());
    }
}

/// Whether the job with identity `id` is under way.
pub open spec fn is_trigger_id(s: Seq<Job>, id: u32) -> bool {
    exists|i: int| 0 <= i < s.len() && (#[trigger] s[i]).id == id && s[i].is_running()
}

/// The table after the job under way on `unit` has ended with `result`: the job is
/// gone, or back in the queue for its second step.
pub open spec fn finished_jobs(s: Seq<Job>, unit: UnitId, result: JobResult) -> Seq<Job> {
    if has_trigger(s, unit) {
        let i = trigger_index(s, unit);
        if job_requeues(s, s[i], result) {
            s.update(i, job_requeued(s[i]))
        } else {
            s.remove(i)
        }
    } else {
        s
    }
}

/// The table after a job of `unit` that was doing `run_kind` has ended with `result`,
/// as far as other jobs go: unless the job is done, the jobs that hang on it fall.
pub open spec fn fallen_jobs(
    db: &UnitDb,
    s: Seq<Job>,
    unit: UnitId,
    run_kind: JobKind,
    result: JobResult,
) -> Seq<Job> {
    if result == JobResult::JobDone {
        s
    } else {
        s.filter(fallback_kept(db, unit, run_kind))
    }
}

/// The table after the job under way on the unit of `info` was ended with `result`.
pub open spec fn del_trigger_jobs(db: &UnitDb, s: Seq<Job>, info: JobInfo, result: JobResult) -> Seq<
    Job,
> {
    fallen_jobs(db, finished_jobs(s, info.unit, result), info.unit, info.run_kind, result)
}

/// The table after the queued job of which `info` tells was taken out with `result`.
pub open spec fn del_suspends_jobs(db: &UnitDb, s: Seq<Job>, info: JobInfo, result: JobResult) -> Seq<
    Job,
> {
    fallen_jobs(
        db,
        s.filter(not_suspend_of(info.unit, info.kind, None)),
        info.unit,
        info.run_kind,
        result,
    )
}

/// The table after the job of which `info` tells was removed with `result`.
pub open spec fn removed_jobs(db: &UnitDb, s: Seq<Job>, info: JobInfo, result: JobResult) -> Seq<
    Job,
> {
    if is_trigger_id(s, info.id) {
        del_trigger_jobs(db, s, info, result)
    } else {
        del_suspends_jobs(db, s, info, result)
    }
}

/// What is to be queued when a job of `unit` has ended with `result`: the failure
/// jobs of the unit, if the job failed of itself and the unit wants them queued in
/// `JobFail` mode.
pub open spec fn unit_notify_targets(db: &UnitDb, unit: UnitId, result: JobResult, force: bool) -> Seq<
    (JobConf, JobMode),
> {
    if !force && result != JobResult::JobDone && db.failure_mode(unit) == JobMode::JobFail {
        job_notify_result_spec(db, unit, UnitRelationAtom::UnitAtomOnFailure, JobMode::JobFail)
    } else {
        Seq::empty()
    }
}

/// What makes of a unit the notice that it is owed about `unit`.
pub open spec fn notice_for(unit: UnitId) -> spec_fn(UnitId) -> (UnitId, UnitId) {
    |other: UnitId| (other, unit)
}

/// The notices that are owed when a job of `unit` has ended: one to each unit that
/// `unit` is triggered by.
pub open spec fn trigger_notices(db: &UnitDb, unit: UnitId) -> Seq<(UnitId, UnitId)> {
    db.atom_dests(unit, UnitRelationAtom::UnitAtomTriggeredBy).map_values(notice_for(unit))
}

/// What the end of a job of `unit` with `result` makes of `v0`, the job itself being
/// out of the table already: the failure jobs are queued, and the notices are owed.
pub open spec fn unit_notified(
    db: &UnitDb,
    v0: JobView,
    unit: UnitId,
    result: JobResult,
    force: bool,
) -> JobView {
    let vm = exec_all(db, v0, unit_notify_targets(db, unit, result, force));
    JobView { notices: vm.notices + trigger_notices(db, unit), ..vm }
}

/// What is to be queued when `unit` went from `os` to `ns` and no job of its own
/// brought that about: what follows a start if it came up, what follows a stop if it
/// went down.
pub open spec fn job_notify_targets(
    db: &UnitDb,
    unit: UnitId,
    os: UnitActiveState,
    ns: UnitActiveState,
) -> Seq<(JobConf, JobMode)> {
    if (os == UnitActiveState::UnitInActive || os == UnitActiveState::UnitFailed) && (ns
        == UnitActiveState::UnitActive || ns == UnitActiveState::UnitActivating) {
        job_notify_event_spec(db, (JobConf { unit, kind: JobKind::JobStart }), None)
    } else if (os == UnitActiveState::UnitActive || os == UnitActiveState::UnitActivating) && (ns
        == UnitActiveState::UnitInActive || ns == UnitActiveState::UnitDeActivating) {
        job_notify_event_spec(db, (JobConf { unit, kind: JobKind::JobStop }), None)
    } else {
        Seq::empty()
    }
}

/// What is to be queued on account of where `unit` has arrived: its failure jobs if
/// it failed, its success jobs if it went down from a state in which it was up or on
/// its way. Nothing if the unit restarts by itself, or does not want such jobs queued
/// in `JobFail` mode.
pub open spec fn start_on_targets(
    db: &UnitDb,
    unit: UnitId,
    os: UnitActiveState,
    ns: UnitActiveState,
    flags: UnitNotifyFlags,
) -> Seq<(JobConf, JobMode)> {
    if flags.spec_intersects(UNIT_NOTIFY_WILL_AUTO_RESTART) || db.failure_mode(unit)
        != JobMode::JobFail {
        Seq::empty()
    } else if ns == UnitActiveState::UnitFailed && os != UnitActiveState::UnitFailed {
        job_notify_result_spec(db, unit, UnitRelationAtom::UnitAtomOnFailure, JobMode::JobFail)
    } else if ns == UnitActiveState::UnitInActive && !(os == UnitActiveState::UnitFailed || os
        == UnitActiveState::UnitInActive || os == UnitActiveState::UnitMaintenance) {
        job_notify_result_spec(db, unit, UnitRelationAtom::UnitAtomOnSuccess, JobMode::JobFail)
    } else {
        Seq::empty()
    }
}

/// What a state change of `unit` to `ns` means for the job under way on it: the
/// result with which that job ends, if it does, and whether the change counts as
/// brought about by a job. A job that was put off is resumed and does not end.
pub open spec fn finish_result(
    s: Seq<Job>,
    unit: UnitId,
    ns: UnitActiveState,
    flags: UnitNotifyFlags,
) -> (
    Option<JobResult>,
    bool,
) {
    if has_trigger(s, unit) {
        let t = s[trigger_index(s, unit)];
        if t.hold == JobHold::JobPaused {
            (None, true)
        } else {
            job_process_unit_spec(t.run_kind, ns, flags)
        }
    } else {
        (None, false)
    }
}

/// The table after a state change of `unit` to `ns` was applied to the job under way
/// on it.
pub open spec fn finish_jobs(
    db: &UnitDb,
    s: Seq<Job>,
    unit: UnitId,
    ns: UnitActiveState,
    flags: UnitNotifyFlags,
) -> Seq<Job> {
    if has_trigger(s, unit) {
        let i = trigger_index(s, unit);
        if s[i].hold == JobHold::JobPaused {
            s.update(i, job_held(s[i], JobHold::JobResumed))
        } else {
            match finish_result(s, unit, ns, flags).0 {
                Some(result) => del_trigger_jobs(db, s, s[i].info(), result),
                None => s,
            }
        }
    } else {
        s
    }
}

/// What is to be queued on account of the state change `f`, the table being `s`
/// when it comes in.
pub open spec fn finish_targets(db: &UnitDb, s: Seq<Job>, f: JobFinish) -> Seq<(JobConf, JobMode)> {
    (if finish_result(s, f.unit, f.ns, f.flags).1 {
        Seq::empty()
    } else {
        job_notify_targets(db, f.unit, f.os, f.ns)
    }) + start_on_targets(db, f.unit, f.os, f.ns, f.flags)
}

/// What the state change `f` makes of `v0`.
pub open spec fn finish_applied(db: &UnitDb, v0: JobView, f: JobFinish) -> JobView {
    exec_all(
        db,
        (JobView { jobs: finish_jobs(db, v0.jobs, f.unit, f.ns, f.flags), ..v0 }),
        finish_targets(db, v0.jobs, f),
    )
}

/// What the removal of the job of which `info` tells, with `result`, makes of `v0`.
pub open spec fn remove_applied(
    db: &UnitDb,
    v0: JobView,
    info: JobInfo,
    result: JobResult,
    force: bool,
) -> JobView {
    unit_notified(
        db,
        (JobView { jobs: removed_jobs(db, v0.jobs, info, result), ..v0 }),
        info.unit,
        result,
        force,
    )
}

proof fn lemma_ids_below_update(s: Seq<Job>, bound: nat, i: int, job: Job)
    requires
        ids_below(s, bound),
        0 <= i < s.len(),
        job.id == s[i].id,
    ensures
        ids_below(s.update(i, job), bound),
{
    assert forall|k: int| 0 <= k < s.len() implies (#[trigger] s.update(i, job)[k]).id <= bound by {
        assert(s[k].id <= bound);
    }
}

proof fn lemma_ids_below_remove(s: Seq<Job>, bound: nat, i: int)
    requires
        ids_below(s, bound),
        0 <= i < s.len(),
    ensures
        ids_below(s.remove(i), bound),
{
    assert forall|k: int| 0 <= k < s.remove(i).len() implies (#[trigger] s.remove(i)[k]).id
        <= bound by {
        if k < i {
            assert(s[k].id <= bound);
        } else {
            assert(s[k + 1].id <= bound);
        }
    }
}

impl JobManagerData {
    /// Carries out one transaction of which nobody wants to know how it went.
    fn exec_quiet(&mut self, db: &UnitDb, config: &JobConf, mode: JobMode)
        requires
            old(self).wf(),
        ensures
            final(self).wf(),
            final(self)@ == exec_view(db, old(self)@, *config, mode),
    {
        let mut affect = JobAffect::new(false);
        let _ = self.exec(db, config, mode, &mut affect);
    }

    /// Carries out the transactions for `targets` one after the other. One that is
    /// turned down does not keep the others from being carried out.
    fn exec_each(&mut self, db: &UnitDb, targets: &Vec<(JobConf, JobMode)>)
        requires
            old(self).wf(),
        ensures
            final(self).wf(),
            final(self)@ == exec_all(db, old(self)@, targets@),
    {
        let ghost v0 = self@;
        let mut i: usize = 0;
        proof {
            assert(targets@.take(0) =~= Seq::<(JobConf, JobMode)>::empty());
        }
        while i < targets.len()
            invariant
                i <= targets.len(),
                self.wf(),
                self@ == exec_all(db, v0, targets@.take(i as int)),
            decreases targets.len() - i,
        {
            let config = targets[i].0;
            let mode = targets[i].1;
            self.exec_quiet(db, &config, mode);
            proof {
                lemma_exec_all_push(db, v0, targets@.take(i as int), targets@[i as int]);
                assert(targets@.take(i + 1) =~= targets@.take(i as int).push(targets@[i as int]));
            }
            i = i + 1;
        }
        proof {
            assert(targets@.take(i as int) =~= targets@);
        }
    }

    /// Queues what follows from something that has happened to the unit of `config` as
    /// if the job `config` had run.
    fn do_notify(&mut self, db: &UnitDb, config: &JobConf, mode_option: Option<JobMode>)
        requires
            old(self).wf(),
        ensures
            final(self).wf(),
            final(self)@ == exec_all(
                db,
                old(self)@,
                job_notify_event_spec(db, *config, mode_option),
            ),
    {
        let targets = job_notify_event(db, config, mode_option);
        self.exec_each(db, &targets);
    }

    /// Queues a start of each unit that the relation `atom` of `unit` leads to.
    fn exec_on(&mut self, db: &UnitDb, unit: UnitId, atom: UnitRelationAtom, mode: JobMode)
        requires
            old(self).wf(),
        ensures
            final(self).wf(),
            final(self)@ == exec_all(db, old(self)@, job_notify_result_spec(db, unit, atom, mode)),
    {
        let (configs, mode) = job_notify_result(db, unit, atom, mode);
        let ghost v0 = self@;
        let ghost targets = job_notify_result_spec(db, unit, atom, mode);
        let mut i: usize = 0;
        proof {
            assert(targets.take(0) =~= Seq::<(JobConf, JobMode)>::empty());
        }
        while i < configs.len()
            invariant
                i <= configs.len(),
                self.wf(),
                targets == job_notify_result_spec(db, unit, atom, mode),
                targets.len() == configs@.len(),
                forall|k: int|
                    0 <= k < configs@.len() ==> (#[trigger] configs@[k], mode) == targets[k],
                self@ == exec_all(db, v0, targets.take(i as int)),
            decreases configs.len() - i,
        {
            let config = configs[i];
            self.exec_quiet(db, &config, mode);
            proof {
                assert((configs@[i as int], mode) == targets[i as int]);
                lemma_exec_all_push(db, v0, targets.take(i as int), targets[i as int]);
                assert(targets.take(i + 1) =~= targets.take(i as int).push(targets[i as int]));
            }
            i = i + 1;
        }
        proof {
            assert(targets.take(i as int) =~= targets);
        }
    }

    /// Ends the job under way on the unit of `job_info` with `result`, and cancels
    /// what hangs on it unless it is done.
    fn del_trigger(&mut self, db: &UnitDb, job_info: &JobInfo, result: JobResult)
        requires
            old(self).wf(),
        ensures
            final(self).wf(),
            final(self)@ == (JobView {
                jobs: del_trigger_jobs(db, old(self)@.jobs, *job_info, result),
                ..old(self)@
            }),
    {
        let ghost s0 = self@.jobs;
        let had = self.jobs.get_trigger_info(job_info.unit).is_some();
        let del_trigger = self.jobs.finish_trigger(job_info.unit, result);
        proof {
            self.jobs.lemma_len_bound();
            lemma_counts_cover(self.jobs@);
            if had {
                let i = trigger_index(s0, job_info.unit);
                if job_requeues(s0, s0[i], result) {
                    lemma_ids_below_update(s0, self.ja.last(), i, job_requeued(s0[i]));
                } else {
                    lemma_ids_below_remove(s0, self.ja.last(), i);
                }
            }
        }
        if had {
            if del_trigger.is_none() {
                self.stat.update_stage_wait(1, true);
            }
            self.stat.update_stage_run(1, false);
        }
        let ghost s1 = self.jobs@;
        let remove_jobs = match result {
            JobResult::JobDone => Vec::new(),
            _ => job_trans_fallback(&mut self.jobs, db, job_info.unit, job_info.run_kind),
        };
        proof {
            if result != JobResult::JobDone {
                lemma_wf_filter(s1, fallback_kept(db, job_info.unit, job_info.run_kind));
            }
        }
        self.stat.update_stage_wait(remove_jobs.len(), false);
    }

    /// Takes out the queued job of which `job_info` tells, and cancels what hangs on
    /// it unless `result` says that it is done.
    fn del_suspends(&mut self, db: &UnitDb, job_info: &JobInfo, result: JobResult)
        requires
            old(self).wf(),
        ensures
            final(self).wf(),
            final(self)@ == (JobView {
                jobs: del_suspends_jobs(db, old(self)@.jobs, *job_info, result),
                ..old(self)@
            }),
    {
        let ghost s0 = self@.jobs;
        let mut del_jobs: Vec<Job> = Vec::new();
        let mut own = self.jobs.remove_suspends(job_info.unit, job_info.kind, None);
        let own_len = own.len();
        del_jobs.append(&mut own);
        let ghost s1 = self.jobs@;
        proof {
            lemma_wf_filter(s0, not_suspend_of(job_info.unit, job_info.kind, None));
        }
        self.stat.update_stage_wait(own_len, false);
        if result != JobResult::JobDone {
            let mut fallen = job_trans_fallback(
                &mut self.jobs,
                db,
                job_info.unit,
                job_info.run_kind,
            );
            let fallen_len = fallen.len();
            del_jobs.append(&mut fallen);
            proof {
                lemma_wf_filter(s1, fallback_kept(db, job_info.unit, job_info.run_kind));
            }
            self.stat.update_stage_wait(fallen_len, false);
        }
    }

    /// Tells the world that a job of `unit` has ended with `result`: queues the
    /// failure jobs of the unit if the job failed of itself, and owes a notice to each
    /// unit by which `unit` is triggered.
    fn simulate_unit_notify(&mut self, db: &UnitDb, unit: UnitId, result: JobResult, force: bool)
        requires
            old(self).wf(),
        ensures
            final(self).wf(),
            final(self)@ == unit_notified(db, old(self)@, unit, result, force),
    {
        if !force {
            if result != JobResult::JobDone {
                if db.on_failure_job_mode(unit) == JobMode::JobFail {
                    self.exec_on(db, unit, UnitRelationAtom::UnitAtomOnFailure, JobMode::JobFail);
                }
            }
        }
        let ghost vm = self@;
        proof {
            assert(vm == exec_all(db, old(self)@, unit_notify_targets(db, unit, result, force)));
        }
        let others = db.dep_gets_atom(unit, UnitRelationAtom::UnitAtomTriggeredBy);
        let ghost make = notice_for(unit);
        let mut i: usize = 0;
        proof {
            assert(others@.take(0).map_values(make) =~= Seq::<(UnitId, UnitId)>::empty());
            assert(self.notices@ =~= vm.notices + others@.take(0).map_values(make));
        }
        while i < others.len()
            invariant
                i <= others.len(),
                self.wf(),
                make == notice_for(unit),
                self@ == (JobView {
                    notices: vm.notices + others@.take(i as int).map_values(make),
                    ..vm
                }),
            decreases others.len() - i,
        {
            proof {
                lemma_map_values_push(others@.take(i as int), make, others@[i as int]);
                assert(others@.take(i + 1) =~= others@.take(i as int).push(others@[i as int]));
                assert((vm.notices + others@.take(i as int).map_values(make)).push(
                    make(others@[i as int]),
                ) =~= vm.notices + others@.take(i as int).map_values(make).push(
                    make(others@[i as int]),
                ));
            }
            self.notices.push((others[i], unit));
            i = i + 1;
        }
        proof {
            assert(others@.take(i as int) =~= others@);
        }
    }

    /// Removes the job of which `job_info` tells with `result`, and tells the world.
    fn do_remove(&mut self, db: &UnitDb, job_info: &JobInfo, result: JobResult, force: bool)
        requires
            old(self).wf(),
        ensures
            final(self).wf(),
            final(self)@ == remove_applied(db, old(self)@, *job_info, result, force),
    {
        if self.jobs.is_trigger(job_info.id) {
            self.del_trigger(db, job_info, result);
        } else {
            self.del_suspends(db, job_info, result);
        }
        self.simulate_unit_notify(db, job_info.unit, result, force);
    }

    /// Queues what follows from a state change of `unit` that no job brought about.
    fn simulate_job_notify(
        &mut self,
        db: &UnitDb,
        unit: UnitId,
        os: UnitActiveState,
        ns: UnitActiveState,
    )
        requires
            old(self).wf(),
        ensures
            final(self).wf(),
            final(self)@ == exec_all(db, old(self)@, job_notify_targets(db, unit, os, ns)),
    {
        let came_up = (os == UnitActiveState::UnitInActive || os == UnitActiveState::UnitFailed)
            && (ns == UnitActiveState::UnitActive || ns == UnitActiveState::UnitActivating);
        let went_down = (os == UnitActiveState::UnitActive || os
            == UnitActiveState::UnitActivating) && (ns == UnitActiveState::UnitInActive || ns
            == UnitActiveState::UnitDeActivating);
        if came_up {
            self.do_notify(db, &JobConf::new(unit, JobKind::JobStart), None);
        } else if went_down {
            self.do_notify(db, &JobConf::new(unit, JobKind::JobStop), None);
        }
    }

    /// Queues the failure jobs or the success jobs of `unit`, according to where it
    /// has arrived.
    fn unit_start_on(
        &mut self,
        db: &UnitDb,
        unit: UnitId,
        os: UnitActiveState,
        ns: UnitActiveState,
        flags: UnitNotifyFlags,
    )
        requires
            old(self).wf(),
        ensures
            final(self).wf(),
            final(self)@ == exec_all(db, old(self)@, start_on_targets(db, unit, os, ns, flags)),
    {
        if ns != os && !flags.intersects(UNIT_NOTIFY_WILL_AUTO_RESTART) {
            match ns {
                UnitActiveState::UnitFailed => {
                    if db.on_failure_job_mode(unit) == JobMode::JobFail {
                        self.exec_on(
                            db,
                            unit,
                            UnitRelationAtom::UnitAtomOnFailure,
                            JobMode::JobFail,
                        );
                    }
                },
                _ => {},
            };
        }
        if ns == UnitActiveState::UnitInActive && !flags.intersects(
            UNIT_NOTIFY_WILL_AUTO_RESTART,
        ) {
            match os {
                UnitActiveState::UnitFailed
                | UnitActiveState::UnitInActive
                | UnitActiveState::UnitMaintenance => {},
                _ => {
                    if db.on_failure_job_mode(unit) == JobMode::JobFail {
                        self.exec_on(
                            db,
                            unit,
                            UnitRelationAtom::UnitAtomOnSuccess,
                            JobMode::JobFail,
                        );
                    }
                },
            };
        }
    }

    /// Applies a state change of `unit`: the job under way on it is resumed if it was
    /// put off, and ended if the change ends it; then what follows from the change is
    /// queued.
    fn do_try_finish(
        &mut self,
        db: &UnitDb,
        unit: UnitId,
        os: UnitActiveState,
        ns: UnitActiveState,
        flags: UnitNotifyFlags,
    )
        requires
            old(self).wf(),
        ensures
            final(self).wf(),
            final(self)@ == finish_applied(db, old(self)@, (JobFinish { unit, os, ns, flags })),
    {
        let ghost v0 = self@;
        let mut generated = false;
        if let Some((trigger, pause)) = self.jobs.get_trigger_info(unit) {
            proof {
                lemma_trigger_exists(v0.jobs, unit);
                let i = trigger_index(v0.jobs, unit);
                let k = choose|k: int|
                    0 <= k < v0.jobs.len() && trigger == (#[trigger] v0.jobs[k]).info()
                        && trigger.unit == unit && trigger.stage == JobStage::JobRunning && pause
                        == (v0.jobs[k].hold == JobHold::JobPaused);
                lemma_trigger_index(v0.jobs, unit, k);
            }
            if pause {
                self.jobs.resume_unit(unit);
                proof {
                    let i = trigger_index(v0.jobs, unit);
                    lemma_ids_below_update(
                        v0.jobs,
                        self.ja.last(),
                        i,
                        job_held(v0.jobs[i], JobHold::JobResumed),
                    );
                }
                generated = true;
            } else {
                let (suggest_r, suggest_g) = job_process_unit(trigger.run_kind, ns, flags);
                if let Some(result) = suggest_r {
                    self.del_trigger(db, &trigger, result);
                }
                generated = suggest_g;
            }
        }
        let ghost v1 = self@;
        if !generated {
            self.simulate_job_notify(db, unit, os, ns);
        }
        let ghost v2 = self@;
        self.unit_start_on(db, unit, os, ns, flags);
        proof {
            let f = JobFinish { unit, os, ns, flags };
            let first = if generated {
                Seq::<(JobConf, JobMode)>::empty()
            } else {
                job_notify_targets(db, unit, os, ns)
            };
            assert(v2 == exec_all(db, v1, first));
            lemma_exec_all_concat(db, v1, first, start_on_targets(db, unit, os, ns, flags));
        }
    }
}

/// Whether a job of `s` is due.
pub open spec fn has_due(s: Seq<Job>, db: &UnitDb) -> bool {
    exists|i: int| job_is_due(s, db, i)
}

/// The position of the first job of `s` that is due, where one is.
pub open spec fn first_due(s: Seq<Job>, db: &UnitDb) -> int {
    choose|i: int| job_is_due(s, db, i) && forall|k: int| 0 <= k < i ==> !job_is_due(s, db, k)
}

/// A due job before which no job is due is the first that is due.
pub proof fn lemma_first_due(s: Seq<Job>, db: &UnitDb, i: int)
    requires
        job_is_due(s, db, i),
        forall|k: int| 0 <= k < i ==> !job_is_due(s, db, k),
    ensures
        has_due(s, db),
        first_due(s, db) == i,
        0 <= i < s.len(),
{
    let j = first_due(s, db);
    assert(job_is_due(s, db, j) && forall|k: int| 0 <= k < j ==> !job_is_due(s, db, k));
    if j < i {
        assert(0 <= j);
        assert(!job_is_due(s, db, j));
    }
    if i < j {
        assert(!job_is_due(s, db, i));
    }
}

/// What a run makes of the table `s` and the notices `notices`, and the job that it
/// hands out.
///
/// As long as a job is due, the first such job in table order is triggered. A no-op
/// is over at once: it leaves the table, the notices of its end are owed, and the run
/// goes on. Any other job is handed out for its unit to do, and the run stops until
/// the unit has answered. The run ends when no job is due.
#[verifier::opaque]
pub open spec fn run_jobs(db: &UnitDb, s: Seq<Job>, notices: Seq<(UnitId, UnitId)>) -> (
    Seq<Job>,
    Seq<(UnitId, UnitId)>,
    Option<JobInfo>,
)
    decreases s.len(),
{
    let i = first_due(s, db);
    if !has_due(s, db) || !(0 <= i < s.len()) {
        (s, notices, None)
    } else if s[i].run_kind == JobKind::JobNop {
        run_jobs(db, s.remove(i), notices + trigger_notices(db, s[i].unit))
    } else {
        (s.update(i, job_triggered(s[i])), notices, Some(job_triggered(s[i]).info()))
    }
}

/// What `run_jobs` comes to, step by step.
pub proof fn lemma_run_unfold(db: &UnitDb, s: Seq<Job>, notices: Seq<(UnitId, UnitId)>)
    ensures
        run_jobs(db, s, notices) == ({
            let i = first_due(s, db);
            if !has_due(s, db) || !(0 <= i < s.len()) {
                (s, notices, None::<JobInfo>)
            } else if s[i].run_kind == JobKind::JobNop {
                run_jobs(db, s.remove(i), notices + trigger_notices(db, s[i].unit))
            } else {
                (s.update(i, job_triggered(s[i])), notices, Some(job_triggered(s[i]).info()))
            }
        }),
{
    reveal(run_jobs);
}

/// What a run makes of `v`.
pub open spec fn run_view(db: &UnitDb, v: JobView) -> JobView {
    let out = run_jobs(db, v.jobs, v.notices);
    JobView { jobs: out.0, notices: out.1, running: out.2, text: None, last_id: v.last_id }
}

/// A run of a manager whose table holds nothing but queued no-ops, however many,
/// leaves it with an empty table: every job has run and is gone, no job is handed
/// out, and no unit is ready any more.
pub proof fn lemma_run_view_drains(db: &UnitDb, v: JobView)
    requires
        jobs_wf(v.jobs),
        forall|i: int|
            0 <= i < v.jobs.len() ==> (#[trigger] v.jobs[i]).is_waiting() && v.jobs[i].run_kind
                == JobKind::JobNop,
    ensures
        run_view(db, v).jobs.len() == 0,
        run_view(db, v).running.is_none(),
        ready_units(run_view(db, v).jobs).len() == 0,
{
    lemma_run_drains(db, v.jobs, v.notices);
}

/// The table after the job under way on `unit` was put off.
pub open spec fn paused_jobs(s: Seq<Job>, unit: UnitId) -> Seq<Job> {
    if has_trigger(s, unit) {
        let i = trigger_index(s, unit);
        s.update(i, job_held(s[i], JobHold::JobPaused))
    } else {
        s
    }
}

/// What is left of `v0` once the answer `reply` of the unit was taken in: the job
/// that was handed out is put off if the unit said so, no job is handed out any more,
/// and no state change is kept back.
pub open spec fn run_noted(v0: JobView, reply: Result<(), UnitActionError>) -> JobView {
    JobView {
        running: None,
        text: None,
        jobs: match v0.running {
            Some(info) => if job_trigger_result_spec(reply).1 && is_trigger_id(v0.jobs, info.id) {
                paused_jobs(v0.jobs, info.unit)
            } else {
                v0.jobs
            },
            None => v0.jobs,
        },
        ..v0
    }
}

/// What the answer `reply` to the job that was handed out makes of `v0`: first the
/// state change that was kept back is applied, if there is one; then the job is
/// removed, if the answer ends it and it is still under way.
pub open spec fn run_answered(db: &UnitDb, v0: JobView, reply: Result<(), UnitActionError>) -> JobView {
    let v1 = match v0.text {
        Some(f) => finish_applied(db, run_noted(v0, reply), f),
        None => run_noted(v0, reply),
    };
    match (v0.running, job_trigger_result_spec(reply).0) {
        (Some(info), Some(result)) => if is_trigger_id(v1.jobs, info.id) {
            remove_applied(db, v1, info, result, false)
        } else {
            v1
        },
        _ => v1,
    }
}

/// A run over a table that holds nothing but queued no-ops, however many, ends with
/// an empty table: every job has run and is gone, no job is handed out, and no unit is
/// ready any more.
pub proof fn lemma_run_drains(db: &UnitDb, s: Seq<Job>, notices: Seq<(UnitId, UnitId)>)
    requires
        jobs_wf(s),
        forall|i: int|
            0 <= i < s.len() ==> (#[trigger] s[i]).is_waiting() && s[i].run_kind
                == JobKind::JobNop,
    ensures
        run_jobs(db, s, notices).0.len() == 0,
        run_jobs(db, s, notices).2.is_none(),
        ready_units(run_jobs(db, s, notices).0) == Set::<UnitId>::empty(),
        ready_units(run_jobs(db, s, notices).0).len() == 0,
    decreases s.len(),
{
    lemma_run_unfold(db, s, notices);
    if s.len() == 0 {
        assert(!has_due(s, db)) by {
            reveal(job_is_runnable);
        }
        assert(ready_units(s) =~= Set::<UnitId>::empty());
    } else {
        assert(!has_trigger(s, s[0].unit)) by {
            if has_trigger(s, s[0].unit) {
                let k = choose|k: int|
                    0 <= k < s.len() && (#[trigger] s[k]).unit == s[0].unit && s[k].is_running();
                assert(s[k].is_waiting());
            }
        }
        assert(job_is_due(s, db, 0)) by {
            reveal(job_is_runnable);
        }
        lemma_first_due(s, db, 0);
        let t = s.remove(0);
        crate::job_table::lemma_wf_remove(s, 0);
        assert forall|i: int| 0 <= i < t.len() implies (#[trigger] t[i]).is_waiting()
            && t[i].run_kind == JobKind::JobNop by {
            assert(t[i] == s[i + 1]);
        }
        lemma_run_drains(db, t, notices + trigger_notices(db, s[0].unit));
    }
}

impl JobManagerData {
    /// Hands out the jobs that are due, one after the other, as far as that needs no
    /// unit: see `run_jobs`. Comes back with the job that a unit now has to do, or
    /// with nothing when no job is due any more. After a job was handed out, the answer
    /// of its unit is owed to `run_done`, and then the run is taken up again.
    #[verifier::rlimit(60)]
    pub fn run(&mut self, db: &UnitDb) -> (action: Option<JobInfo>)
        requires
            old(self).wf(),
            old(self)@.running.is_none(),
        ensures
            final(self).wf(),
            final(self)@ == run_view(db, old(self)@),
            action == final(self)@.running,
            action.is_none() ==> forall|i: int| !job_is_due(final(self)@.jobs, db, i),
    {
        loop
            invariant
                self.wf(),
                self@.running.is_none(),
                run_view(db, self@) == run_view(db, old(self)@),
            decreases self@.jobs.len(),
        {
            let ghost v = self@;
            let out = self.run_step(db);
            proof {
                lemma_run_unfold(db, v.jobs, v.notices);
            }
            match out {
                None => {
                    return None;
                },
                Some(info) => {
                    if info.run_kind != JobKind::JobNop {
                        self.running = Some(info);
                        return Some(info);
                    }
                },
            }
        }
    }

    /// Triggers the first job that is due, if one is, and ends it at once if it is a
    /// no-op.
    #[verifier::rlimit(60)]
    fn run_step(&mut self, db: &UnitDb) -> (out: Option<JobInfo>)
        requires
            old(self).wf(),
        ensures
            final(self).wf(),
            out.is_some() <==> has_due(old(self)@.jobs, db),
            match out {
                None => final(self)@ == (JobView { text: None, ..old(self)@ }) && forall|i: int|
                    !job_is_due(old(self)@.jobs, db, i),
                Some(info) => {
                    let s = old(self)@.jobs;
                    let i = first_due(s, db);
                    &&& 0 <= i < s.len()
                    &&& info == job_triggered(s[i]).info()
                    &&& final(self)@ == if s[i].run_kind == JobKind::JobNop {
                        JobView {
                            jobs: s.remove(i),
                            notices: old(self)@.notices + trigger_notices(db, s[i].unit),
                            text: None,
                            ..old(self)@
                        }
                    } else {
                        JobView {
                            jobs: s.update(i, job_triggered(s[i])),
                            text: None,
                            ..old(self)@
                        }
                    }
                },
            },
    {
        self.text = None;
        let ghost v = self@;
        match self.trigger_next(db) {
            None => None,
            Some(info) => {
                if info.run_kind == JobKind::JobNop {
                    proof {
                        let i = first_due(v.jobs, db);
                        let s1 = self@.jobs;
                        assert(s1[i].id == info.id && s1[i].is_running());
                        assert(trigger_at(s1, info.unit, i));
                        lemma_trigger_index(s1, info.unit, i);
                        assert(s1.remove(i) =~= v.jobs.remove(i));
                    }
                    self.finish_nop(db, &info);
                }
                Some(info)
            },
        }
    }

    /// Triggers the first job that is due, if one is.
    fn trigger_next(&mut self, db: &UnitDb) -> (picked: Option<JobInfo>)
        requires
            old(self).wf(),
        ensures
            final(self).wf(),
            picked.is_some() <==> has_due(old(self)@.jobs, db),
            match picked {
                None => final(self)@ == old(self)@ && forall|i: int|
                    !job_is_due(old(self)@.jobs, db, i),
                Some(info) => {
                    let s = old(self)@.jobs;
                    let i = first_due(s, db);
                    &&& 0 <= i < s.len()
                    &&& info == job_triggered(s[i]).info()
                    &&& final(self)@ == (JobView {
                        jobs: s.update(i, job_triggered(s[i])),
                        ..old(self)@
                    })
                },
            },
    {
        let ghost v = self@;
        let picked = self.jobs.try_trigger(db);
        match picked {
            None => None,
            Some((info, fresh)) => {
                proof {
                    self.jobs.lemma_len_bound();
                    let i = choose|i: int|
                        {
                            &&& #[trigger] job_is_due(v.jobs, db, i)
                            &&& forall|k: int| 0 <= k < i ==> !job_is_due(v.jobs, db, k)
                            &&& self.jobs@ == v.jobs.update(i, job_triggered(v.jobs[i]))
                            &&& info == job_triggered(v.jobs[i]).info()
                            &&& fresh == v.jobs[i].is_waiting()
                        };
                    lemma_first_due(v.jobs, db, i);
                    lemma_ids_below_update(v.jobs, v.last_id, i, job_triggered(v.jobs[i]));
                    lemma_counts_cover(self.jobs@);
                }
                if fresh {
                    self.stat.update_stage_wait(1, false);
                    self.stat.update_stage_run(1, true);
                }
                Some(info)
            },
        }
    }

    /// Ends the no-op of which `info` tells, which is under way: it is done.
    fn finish_nop(&mut self, db: &UnitDb, info: &JobInfo)
        requires
            old(self).wf(),
            has_trigger(old(self)@.jobs, info.unit),
            old(self)@.jobs[trigger_index(old(self)@.jobs, info.unit)].info() == *info,
            info.run_kind == JobKind::JobNop,
        ensures
            final(self).wf(),
            final(self)@ == (JobView {
                jobs: old(self)@.jobs.remove(trigger_index(old(self)@.jobs, info.unit)),
                notices: old(self)@.notices + trigger_notices(db, info.unit),
                ..old(self)@
            }),
    {
        let ghost v1 = self@;
        proof {
            lemma_trigger_exists(v1.jobs, info.unit);
            let i = trigger_index(v1.jobs, info.unit);
            assert(v1.jobs[i].id == info.id && v1.jobs[i].is_running());
            assert(is_trigger_id(v1.jobs, info.id));
            assert(!job_requeues(v1.jobs, v1.jobs[i], JobResult::JobDone));
        }
        self.do_remove(db, info, JobResult::JobDone, false);
    }

    /// Takes in the answer of the unit to the job that was handed out: see
    /// `run_answered`.
    pub fn run_done(&mut self, db: &UnitDb, reply: Result<(), UnitActionError>)
        requires
            old(self).wf(),
            old(self)@.running.is_some(),
        ensures
            final(self).wf(),
            final(self)@ == run_answered(db, old(self)@, reply),
    {
        let ghost v0 = self@;
        let info = self.running.unwrap();
        let kept = self.text;
        self.running = None;
        self.text = None;
        let (result, paused) = job_trigger_result(reply);
        if paused && self.jobs.is_trigger(info.id) {
            self.jobs.pause_unit(info.unit);
            proof {
                if has_trigger(v0.jobs, info.unit) {
                    let i = trigger_index(v0.jobs, info.unit);
                    lemma_ids_below_update(
                        v0.jobs,
                        v0.last_id,
                        i,
                        job_held(v0.jobs[i], JobHold::JobPaused),
                    );
                }
            }
        }
        proof {
            assert(self@ == run_noted(v0, reply));
        }
        if let Some(f) = kept {
            self.do_try_finish(db, f.unit, f.os, f.ns, f.flags);
        }
        if let Some(r) = result {
            if self.jobs.is_trigger(info.id) {
                self.do_remove(db, &info, r, false);
            }
        }
        proof {
            assert(self@ == run_answered(db, v0, reply));
        }
    }

    /// Takes in a state change that `unit` reports. While the answer of a unit to the
    /// job that was handed out is owed, the change is kept back, and a second such
    /// change is turned down. Otherwise the change is applied at once.
    pub fn try_finish(
        &mut self,
        db: &UnitDb,
        unit: UnitId,
        os: UnitActiveState,
        ns: UnitActiveState,
        flags: UnitNotifyFlags,
    ) -> (res: Result<(), JobErrno>)
        requires
            old(self).wf(),
        ensures
            final(self).wf(),
            res.is_err() <==> old(self)@.running.is_some() && old(self)@.text.is_some(),
            res.is_err() ==> res == Err::<(), JobErrno>(JobErrno::JobErrInput) && final(self)@
                == old(self)@,
            old(self)@.running.is_some() && old(self)@.text.is_none() ==> final(self)@ == (JobView {
                text: Some((JobFinish { unit, os, ns, flags })),
                ..old(self)@
            }),
            old(self)@.running.is_none() ==> final(self)@ == finish_applied(
                db,
                old(self)@,
                (JobFinish { unit, os, ns, flags }),
            ),
    {
        if self.running.is_some() {
            if self.text.is_some() {
                return Err(JobErrno::JobErrInput);
            }
            self.text = Some(JobFinish { unit, os, ns, flags });
        } else {
            self.do_try_finish(db, unit, os, ns, flags);
        }
        Ok(())
    }

    /// Takes the queued job with identity `id` back. A job under way cannot be taken
    /// back.
    pub fn remove(&mut self, db: &UnitDb, id: u32) -> (res: Result<(), JobErrno>)
        requires
            old(self).wf(),
            old(self)@.running.is_none(),
        ensures
            final(self).wf(),
            !has_id(old(self)@.jobs, id) ==> res == Err::<(), JobErrno>(
                JobErrno::JobErrNotExisted,
            ),
            is_trigger_id(old(self)@.jobs, id) ==> res == Err::<(), JobErrno>(
                JobErrno::JobErrNotSupported,
            ),
            res.is_ok() <==> has_id(old(self)@.jobs, id) && !is_trigger_id(old(self)@.jobs, id),
            res.is_err() ==> final(self)@ == old(self)@,
            res.is_ok() ==> exists|i: int|
                0 <= i < old(self)@.jobs.len() && (#[trigger] old(self)@.jobs[i]).id == id
                    && final(self)@ == remove_applied(
                    db,
                    old(self)@,
                    old(self)@.jobs[i].info(),
                    JobResult::JobCancelled,
                    true,
                ),
    {
        let job_info = self.jobs.get(id);
        if job_info.is_none() {
            return Err(JobErrno::JobErrNotExisted);
        }
        if self.jobs.is_trigger(id) {
            return Err(JobErrno::JobErrNotSupported);
        }
        if !self.jobs.is_suspend(id) {
            return Err(JobErrno::JobErrInternel);
        }
        self.do_remove(db, &job_info.unwrap(), JobResult::JobCancelled, true);
        Ok(())
    }

    /// Forgets every job of `unit`: the unit is gone.
    pub fn remove_unit(&mut self, unit: UnitId)
        requires
            old(self).wf(),
        ensures
            final(self).wf(),
            final(self)@ == (JobView {
                jobs: old(self)@.jobs.filter(not_of_unit(unit)),
                ..old(self)@
            }),
    {
        let ghost s0 = self@.jobs;
        let (del_trigger, del_suspends) = self.jobs.remove_unit(unit);
        proof {
            lemma_wf_filter(s0, not_of_unit(unit));
        }
        if del_trigger.is_some() {
            self.stat.update_stage_run(1, false);
        }
        self.stat.update_stage_wait(del_suspends.len(), false);
    }

    /// Queues what follows from a reload of the unit of `config`. Only a reload can
    /// be notified.
    pub fn notify(&mut self, db: &UnitDb, config: &JobConf, mode: JobMode) -> (res: Result<
        (),
        JobErrno,
    >)
        requires
            old(self).wf(),
        ensures
            final(self).wf(),
            res.is_ok() <==> config.kind == JobKind::JobReload,
            res.is_err() ==> res == Err::<(), JobErrno>(JobErrno::JobErrInput) && final(self)@
                == old(self)@,
            res.is_ok() ==> final(self)@ == exec_all(
                db,
                old(self)@,
                job_notify_event_spec(db, *config, Some(mode)),
            ),
    {
        if config.get_kind() != JobKind::JobReload {
            return Err(JobErrno::JobErrInput);
        }
        self.do_notify(db, config, Some(mode));
        Ok(())
    }
}

/// Whether an event source is asked to be dispatched: not at all, every time round,
/// or once.
#[derive(Clone, Copy, Debug, PartialEq, Eq, Structural)]
pub enum EventState {
    Off,
    On,
    OneShot,
}

/// The kinds of event source that the job manager can tell apart: one that waits for
/// a descriptor, and one that is dispatched when the loop has nothing else to do.
#[derive(Clone, Copy, Debug, PartialEq, Eq, Structural)]
pub enum EventType {
    Io,
    Defer,
}

/// Whether `res` and `v1` are what a transaction for `config` in `mode` can end with
/// and leave of `v0`, with `a1` what it records behind `a0`.
pub open spec fn exec_done(
    db: &UnitDb,
    v0: JobView,
    config: JobConf,
    mode: JobMode,
    a0: &JobAffect,
    a1: &JobAffect,
    v1: JobView,
    res: Result<(), JobErrno>,
) -> bool {
    &&& res == exec_result(db, v0, config, mode)
    &&& v1 == exec_view(db, v0, config, mode)
    &&& match res {
        Ok(_) => {
            let staged = trans_jobs(db, config, mode, v0.last_id);
            &&& exists|expanded: Seq<Job>| #[trigger]
                exec_commits(db, v0, config, mode, expanded, staged, v1)
            &&& JobAffect::recorded(
                a0,
                a1,
                staged.filter(new_to(v0.jobs)),
                v0.jobs.filter(superseded_by(staged)),
                v0.jobs.filter(merged_by(staged)),
            )
        },
        Err(_) => JobAffect::same(a0, a1),
    }
}

/// Whether `res` and `v1` are what taking back the job with identity `id` ends with
/// and can leave of `v0`.
pub open spec fn remove_done(
    db: &UnitDb,
    v0: JobView,
    id: u32,
    v1: JobView,
    res: Result<(), JobErrno>,
) -> bool {
    &&& !has_id(v0.jobs, id) ==> res == Err::<(), JobErrno>(JobErrno::JobErrNotExisted)
    &&& is_trigger_id(v0.jobs, id) ==> res == Err::<(), JobErrno>(JobErrno::JobErrNotSupported)
    &&& res.is_ok() <==> has_id(v0.jobs, id) && !is_trigger_id(v0.jobs, id)
    &&& res.is_err() ==> v1 == v0
    &&& res.is_ok() ==> exists|i: int|
        0 <= i < v0.jobs.len() && (#[trigger] v0.jobs[i]).id == id && v1 == remove_applied(
            db,
            v0,
            v0.jobs[i].info(),
            JobResult::JobCancelled,
            true,
        )
}

/// Whether `res` and `v1` are what the state change `f` ends with and can leave of
/// `v0`.
pub open spec fn try_finish_done(
    db: &UnitDb,
    v0: JobView,
    f: JobFinish,
    v1: JobView,
    res: Result<(), JobErrno>,
) -> bool {
    &&& res.is_err() <==> v0.running.is_some() && v0.text.is_some()
    &&& res.is_err() ==> res == Err::<(), JobErrno>(JobErrno::JobErrInput) && v1 == v0
    &&& v0.running.is_some() && v0.text.is_none() ==> v1 == (JobView { text: Some(f), ..v0 })
    &&& v0.running.is_none() ==> v1 == finish_applied(db, v0, f)
}

/// What becomes of the wish to be dispatched once the manager is in state `v`: there
/// is such a wish if a unit is ready, and the wish that was there stays if none is.
pub open spec fn armed(before: EventState, v: JobView) -> EventState {
    if ready_units(v.jobs).len() > 0 {
        EventState::OneShot
    } else {
        before
    }
}

/// The job manager as the rest of the service manager sees it. After each request it
/// notes whether it wants to be dispatched; he who runs the event loop looks at
/// `enabled` and calls `dispatch`.
pub struct JobManager {
    pub data: JobManagerData,
    pub enabled: EventState,
}

impl JobManager {
    pub open spec fn wf(&self) -> bool {
        self.data.wf()
    }

    pub fn new() -> (jm: JobManager)
        ensures
            jm.wf(),
            jm.enabled == EventState::Off,
            jm.data@.jobs.len() == 0,
            jm.data@.last_id == 0,
            jm.data@.running.is_none(),
            jm.data@.text.is_none(),
            jm.data@.notices.len() == 0,
    {
        JobManager { data: JobManagerData::new(), enabled: EventState::Off }
    }

    pub fn exec(&mut self, db: &UnitDb, config: &JobConf, mode: JobMode, affect: &mut JobAffect) -> (res:
        Result<(), JobErrno>)
        requires
            old(self).wf(),
        ensures
            final(self).wf(),
            exec_done(
                db,
                old(self).data@,
                *config,
                mode,
                old(affect),
                final(affect),
                final(self).data@,
                res,
            ),
            final(self).enabled == if res.is_ok() {
                armed(old(self).enabled, final(self).data@)
            } else {
                old(self).enabled
            },
    {
        if let Err(e) = self.data.exec(db, config, mode, affect) {
            return Err(e);
        }
        self.try_enable();
        Ok(())
    }

    pub fn notify(&mut self, db: &UnitDb, config: &JobConf, mode: JobMode) -> (res: Result<
        (),
        JobErrno,
    >)
        requires
            old(self).wf(),
        ensures
            final(self).wf(),
            res.is_ok() <==> config.kind == JobKind::JobReload,
            res.is_err() ==> res == Err::<(), JobErrno>(JobErrno::JobErrInput)
                && final(self).data@ == old(self).data@
                && final(self).enabled == old(self).enabled,
            res.is_ok() ==> final(self).data@ == exec_all(
                db,
                old(self).data@,
                job_notify_event_spec(db, *config, Some(mode)),
            ) && final(self).enabled == armed(old(self).enabled, final(self).data@),
    {
        if let Err(e) = self.data.notify(db, config, mode) {
            return Err(e);
        }
        self.try_enable();
        Ok(())
    }

    pub fn try_finish(
        &mut self,
        db: &UnitDb,
        unit: UnitId,
        os: UnitActiveState,
        ns: UnitActiveState,
        flags: UnitNotifyFlags,
    ) -> (res: Result<(), JobErrno>)
        requires
            old(self).wf(),
        ensures
            final(self).wf(),
            try_finish_done(
                db,
                old(self).data@,
                (JobFinish { unit, os, ns, flags }),
                final(self).data@,
                res,
            ),
            final(self).enabled == if res.is_ok() {
                armed(old(self).enabled, final(self).data@)
            } else {
                old(self).enabled
            },
    {
        if let Err(e) = self.data.try_finish(db, unit, os, ns, flags) {
            return Err(e);
        }
        self.try_enable();
        Ok(())
    }

    pub fn remove(&mut self, db: &UnitDb, id: u32) -> (res: Result<(), JobErrno>)
        requires
            old(self).wf(),
            old(self).data@.running.is_none(),
        ensures
            final(self).wf(),
            remove_done(db, old(self).data@, id, final(self).data@, res),
            final(self).enabled == if res.is_ok() {
                armed(old(self).enabled, final(self).data@)
            } else {
                old(self).enabled
            },
    {
        if let Err(e) = self.data.remove(db, id) {
            return Err(e);
        }
        self.try_enable();
        Ok(())
    }

    pub fn get_jobinfo(&self, id: u32) -> (found: Option<JobInfo>)
        ensures
            found.is_some() <==> has_id(self.data@.jobs, id),
            match found {
                Some(info) => exists|i: int|
                    0 <= i < self.data@.jobs.len() && (#[trigger] self.data@.jobs[i]).id == id
                        && info == self.data@.jobs[i].info(),
                None => true,
            },
    {
        self.data.get_jobinfo(id)
    }

    /// Whether a stop is queued for `unit`.
    pub fn has_stop_job(&self, unit: UnitId) -> (yes: bool)
        ensures
            yes == has_suspend(self.data@.jobs, unit, JobKind::JobStop),
    {
        match self.data.get_suspends(unit) {
            Some(_) => true,
            None => false,
        }
    }

    /// The unit is gone from the store: its jobs go with it.
    pub fn unit_removed(&mut self, unit: UnitId)
        requires
            old(self).wf(),
        ensures
            final(self).wf(),
            final(self).enabled == old(self).enabled,
            final(self).data@ == (JobView {
                jobs: old(self).data@.jobs.filter(not_of_unit(unit)),
                ..old(self).data@
            }),
    {
        self.data.remove_unit(unit);
    }

    fn try_enable(&mut self)
        requires
            old(self).wf(),
        ensures
            final(self).data == old(self).data,
            final(self).enabled == armed(old(self).enabled, old(self).data@),
    {
        if self.data.is_jobs_ready() {
            self.enable();
        }
    }

    fn enable(&mut self)
        ensures
            final(self).data == old(self).data,
            final(self).enabled == EventState::OneShot,
    {
        self.enabled = EventState::OneShot;
    }

    /// The kind of event source that the manager is: one that is dispatched when the
    /// loop has nothing else to do.
    pub fn event_type(&self) -> (kind: EventType)
        ensures
            kind == EventType::Defer,
    {
        EventType::Defer
    }

    /// The events on a descriptor that the manager waits for: none.
    pub fn epoll_event(&self) -> (events: u32)
        ensures
            events == 0,
    {
        0
    }

    /// The rank of the manager among the event sources: it comes after all others.
    pub fn priority(&self) -> (rank: i8)
        ensures
            rank == -10,
    {
        -10
    }

    /// The manager is dispatched: the wish to be dispatched is spent, and the jobs
    /// that are due are handed out as `run` says.
    pub fn dispatch(&mut self, db: &UnitDb) -> (action: Option<JobInfo>)
        requires
            old(self).wf(),
            old(self).data@.running.is_none(),
        ensures
            final(self).wf(),
            final(self).enabled == EventState::Off,
            final(self).data@ == run_view(db, old(self).data@),
            action == final(self).data@.running,
            action.is_none() ==> forall|i: int| !job_is_due(final(self).data@.jobs, db, i),
    {
        self.enabled = EventState::Off;
        self.data.run(db)
    }
}

/// Committing an empty stage changes nothing: the table stays as it is, nothing is
/// added, deleted or updated, and so the counts of queued jobs and of jobs under way,
/// which the statistics follow, stay as they are.
pub proof fn lemma_commit_empty_stage(jobs: Seq<Job>)
    ensures
        commit_jobs(jobs, Seq::empty()) == jobs,
        Seq::<Job>::empty().filter(new_to(jobs)).len() == 0,
        jobs.filter(superseded_by(Seq::empty())).len() == 0,
        jobs.filter(merged_by(Seq::empty())).len() == 0,
        wait_count(commit_jobs(jobs, Seq::empty())) == wait_count(jobs),
        run_count(commit_jobs(jobs, Seq::empty())) == run_count(jobs),
{
    let stage = Seq::<Job>::empty();
    assert forall|i: int| 0 <= i < jobs.len() implies not_superseded_by(stage)(
        #[trigger] jobs[i],
    ) by {}
    lemma_filter_all(jobs, not_superseded_by(stage));
    assert forall|i: int| 0 <= i < jobs.len() implies !superseded_by(stage)(#[trigger] jobs[i]) by {}
    lemma_filter_none(jobs, superseded_by(stage));
    assert forall|i: int| 0 <= i < jobs.len() implies !merged_by(stage)(#[trigger] jobs[i]) by {}
    lemma_filter_none(jobs, merged_by(stage));
    lemma_filter_none(stage, new_to(jobs));
    assert(stage.filter(new_to(jobs)) =~= Seq::<Job>::empty());
    assert(jobs + Seq::<Job>::empty() =~= jobs);
}

/// A transaction that resolves to no changes, because it adds no job and deletes
/// none, leaves the table as it is, and the counts that the statistics follow with it.
pub proof fn lemma_commit_nothing(jobs: Seq<Job>, staged: Seq<Job>)
    requires
        staged.filter(new_to(jobs)).len() == 0,
        jobs.filter(superseded_by(staged)).len() == 0,
    ensures
        commit_jobs(jobs, staged) == jobs,
        wait_count(commit_jobs(jobs, staged)) == wait_count(jobs),
        run_count(commit_jobs(jobs, staged)) == run_count(jobs),
{
    let at = lemma_filter_positions(jobs, superseded_by(staged));
    assert forall|i: int| 0 <= i < jobs.len() implies not_superseded_by(staged)(
        #[trigger] jobs[i],
    ) by {
        if superseded_by(staged)(jobs[i]) {
            assert(at.contains(i));
        }
    }
    lemma_filter_all(jobs, not_superseded_by(staged));
    assert(staged.filter(new_to(jobs)) =~= Seq::<Job>::empty());
    assert(jobs + Seq::<Job>::empty() =~= jobs);
}

} // verus!
