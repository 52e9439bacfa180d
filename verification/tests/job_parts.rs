use process1::job_alloc::JobAlloc;
use process1::job_entry::{
    job_is_conflict, job_process_unit, job_rkind_new, job_trigger_result, Job, JobConf, JobErrno,
    JobHold, JobInfo, JobKind, JobResult, JobStage, UnitActionError,
};
use process1::job_manager::{job_trans_check_input, jobs_2_jobinfo, JobAffect};
use process1::job_notify::{job_notify_event, job_notify_result};
use process1::job_stat::JobStat;
use process1::job_table::JobTable;
use process1::job_transaction::{
    job_trans_affect, job_trans_edges, job_trans_expand, job_trans_fallback, job_trans_verify,
};
use process1::unit::{
    JobMode, UnitActiveState, UnitDb, UnitId, UnitNotifyFlags, UnitRelationAtom, UnitRelations,
    UnitType, UnitX, UNIT_NOTIFY_RELOAD_FAILURE,
};

fn db_of(n: usize) -> UnitDb {
    let mut db = UnitDb::new();
    for i in 0..n {
        let name = format!("unit{}.service", i);
        db.units_insert(name.clone(), UnitX::new(UnitType::UnitService, &name));
    }
    db
}

fn conf(unit: UnitId, kind: JobKind) -> JobConf {
    JobConf::new(unit, kind)
}

fn confs_of(table: &JobTable) -> Vec<(UnitId, JobKind)> {
    table.jobs().iter().map(|j| (j.unit, j.kind)).collect()
}

#[test]
fn alloc_counts_up_from_one() {
    let mut ja = JobAlloc::new();
    assert_eq!(ja.alloc_id(), Some(1));
    assert_eq!(ja.alloc_id(), Some(2));
    assert_eq!(ja.alloc_id(), Some(3));
}

#[test]
fn stat_moves_by_what_it_is_told() {
    let mut stat = JobStat::new();
    stat.update_stage_wait(3, true);
    stat.update_stage_wait(1, false);
    stat.update_stage_run(1, true);
    assert_eq!(stat.get_wait(), 2);
    assert_eq!(stat.get_run(), 1);
    stat.update_stage_run(1, false);
    assert_eq!(stat.get_run(), 0);
}

#[test]
fn restart_begins_by_stopping() {
    assert_eq!(job_rkind_new(JobKind::JobRestart), JobKind::JobStop);
    assert_eq!(job_rkind_new(JobKind::JobStart), JobKind::JobStart);
    assert_eq!(job_rkind_new(JobKind::JobNop), JobKind::JobNop);
    let job = Job::new(7, &conf(2, JobKind::JobRestart));
    assert_eq!(
        job,
        Job {
            id: 7,
            unit: 2,
            kind: JobKind::JobRestart,
            run_kind: JobKind::JobStop,
            stage: JobStage::JobWait,
            hold: JobHold::JobFree
        }
    );
    assert_eq!(
        JobInfo::map(&job),
        JobInfo {
            id: 7,
            unit: 2,
            kind: JobKind::JobRestart,
            run_kind: JobKind::JobStop,
            stage: JobStage::JobWait
        }
    );
}

#[test]
fn stop_contradicts_all_but_stop_and_nop() {
    assert!(job_is_conflict(JobKind::JobStart, JobKind::JobStop));
    assert!(job_is_conflict(JobKind::JobStop, JobKind::JobRestart));
    assert!(job_is_conflict(JobKind::JobVerify, JobKind::JobStop));
    assert!(!job_is_conflict(JobKind::JobStop, JobKind::JobStop));
    assert!(!job_is_conflict(JobKind::JobStart, JobKind::JobReload));
    assert!(!job_is_conflict(JobKind::JobNop, JobKind::JobStop));
    assert!(!job_is_conflict(JobKind::JobStop, JobKind::JobNop));
}

#[test]
fn answers_of_a_unit_map_to_results() {
    assert_eq!(job_trigger_result(Ok(())), (None, false));
    assert_eq!(job_trigger_result(Err(UnitActionError::UnitActionEAgain)), (None, true));
    assert_eq!(
        job_trigger_result(Err(UnitActionError::UnitActionEAlready)),
        (Some(JobResult::JobDone), false)
    );
    assert_eq!(
        job_trigger_result(Err(UnitActionError::UnitActionEBadR)),
        (Some(JobResult::JobSkipped), false)
    );
    assert_eq!(
        job_trigger_result(Err(UnitActionError::UnitActionENolink)),
        (Some(JobResult::JobDependency), false)
    );
    assert_eq!(
        job_trigger_result(Err(UnitActionError::UnitActionETimedOut)),
        (Some(JobResult::JobTimeOut), false)
    );
    assert_eq!(
        job_trigger_result(Err(UnitActionError::UnitActionEFailed)),
        (Some(JobResult::JobFailed), false)
    );
}

#[test]
fn state_changes_end_jobs() {
    let none = UnitNotifyFlags::empty();
    let failed = UnitNotifyFlags::from_bits(UNIT_NOTIFY_RELOAD_FAILURE);
    let start = JobKind::JobStart;
    assert_eq!(
        job_process_unit(start, UnitActiveState::UnitActive, none),
        (Some(JobResult::JobDone), true)
    );
    assert_eq!(job_process_unit(start, UnitActiveState::UnitActivating, none), (None, true));
    assert_eq!(
        job_process_unit(start, UnitActiveState::UnitFailed, none),
        (Some(JobResult::JobFailed), false)
    );
    assert_eq!(
        job_process_unit(start, UnitActiveState::UnitInActive, none),
        (Some(JobResult::JobDone), false)
    );
    assert_eq!(job_process_unit(start, UnitActiveState::UnitDeActivating, none), (None, false));
    assert_eq!(
        job_process_unit(JobKind::JobReload, UnitActiveState::UnitActive, none),
        (Some(JobResult::JobDone), true)
    );
    assert_eq!(
        job_process_unit(JobKind::JobReload, UnitActiveState::UnitActive, failed),
        (Some(JobResult::JobFailed), true)
    );
    assert_eq!(
        job_process_unit(JobKind::JobStop, UnitActiveState::UnitFailed, none),
        (Some(JobResult::JobDone), true)
    );
    assert_eq!(job_process_unit(JobKind::JobStop, UnitActiveState::UnitDeActivating, none), (None, true));
    assert_eq!(
        job_process_unit(JobKind::JobStop, UnitActiveState::UnitActive, none),
        (Some(JobResult::JobFailed), false)
    );
    assert_eq!(job_process_unit(JobKind::JobNop, UnitActiveState::UnitActive, none), (None, false));
}

#[test]
fn record_suspend_merges_the_same_request() {
    let mut ja = JobAlloc::new();
    let mut table = JobTable::new();
    assert_eq!(table.record_suspend(&mut ja, &conf(0, JobKind::JobStart)), Ok(true));
    assert_eq!(table.record_suspend(&mut ja, &conf(0, JobKind::JobStart)), Ok(false));
    assert_eq!(table.record_suspend(&mut ja, &conf(0, JobKind::JobStop)), Ok(true));
    assert_eq!(table.record_suspend(&mut ja, &conf(1, JobKind::JobStart)), Ok(true));
    assert_eq!(table.len(), 3);
    assert!(!table.is_empty());
    assert_eq!(table.get(2).unwrap().kind, JobKind::JobStop);
    assert!(table.get(4).is_none());
    assert!(table.is_suspend(1));
    assert!(!table.is_trigger(1));
    assert!(table.has_unit_job(1));
    assert!(!table.has_unit_job(2));
    assert_eq!(table.get_suspend(1, JobKind::JobStart).unwrap().id, 3);
    assert!(table.get_suspend(1, JobKind::JobStop).is_none());
    assert!(table.get_trigger_info(0).is_none());
    assert!(table.is_suspends_conflict());
    table.clear();
    assert!(table.is_empty());
}

#[test]
fn expansion_follows_the_edges_once() {
    let mut db = db_of(4);
    db.dep_insert(0, UnitRelations::UnitRequires, 1, true, 0).unwrap();
    db.dep_insert(1, UnitRelations::UnitRequires, 2, true, 0).unwrap();
    db.dep_insert(2, UnitRelations::UnitRequires, 0, true, 0).unwrap();
    db.dep_insert(0, UnitRelations::UnitRequisite, 3, true, 0).unwrap();
    let mut ja = JobAlloc::new();
    let mut stage = JobTable::new();
    let root = conf(0, JobKind::JobStart);
    assert_eq!(job_trans_expand(&mut stage, &mut ja, &db, &root, JobMode::JobReplace), Ok(()));
    assert_eq!(
        confs_of(&stage),
        vec![
            (0, JobKind::JobStart),
            (1, JobKind::JobStart),
            (2, JobKind::JobStart),
            (3, JobKind::JobVerify)
        ]
    );
    // a second expansion finds everything there
    assert_eq!(job_trans_expand(&mut stage, &mut ja, &db, &root, JobMode::JobReplace), Ok(()));
    assert_eq!(stage.len(), 4);
    assert_eq!(ja.alloc_id(), Some(5));
}

#[test]
fn stop_is_passed_on_to_what_requires_the_unit() {
    let mut db = db_of(3);
    db.dep_insert(0, UnitRelations::UnitRequires, 1, true, 0).unwrap();
    db.dep_insert(2, UnitRelations::UnitBindsTo, 1, true, 0).unwrap();
    let edges = job_trans_edges(&db, JobMode::JobReplace, &conf(1, JobKind::JobStop));
    assert_eq!(edges, vec![conf(0, JobKind::JobStop), conf(2, JobKind::JobStop)]);
    let edges = job_trans_edges(&db, JobMode::JobReplace, &conf(1, JobKind::JobRestart));
    assert_eq!(edges, vec![conf(0, JobKind::JobRestart), conf(2, JobKind::JobRestart)]);
    assert_eq!(job_trans_edges(&db, JobMode::JobReplace, &conf(1, JobKind::JobNop)).len(), 0);
    assert_eq!(
        job_trans_edges(&db, JobMode::JobIgnoreRequirements, &conf(1, JobKind::JobStop)).len(),
        0
    );
}

#[test]
fn trigger_mode_stops_the_triggering_units() {
    let mut db = db_of(3);
    db.dep_insert(1, UnitRelations::UnitTriggers, 0, true, 0).unwrap();
    let mut ja = JobAlloc::new();
    let mut stage = JobTable::new();
    let root = conf(0, JobKind::JobStop);
    job_trans_expand(&mut stage, &mut ja, &db, &root, JobMode::JobTrigger).unwrap();
    job_trans_affect(&mut stage, &mut ja, &db, &root, JobMode::JobTrigger).unwrap();
    assert_eq!(confs_of(&stage), vec![(0, JobKind::JobStop), (1, JobKind::JobStop)]);
    let before = stage.len();
    job_trans_affect(&mut stage, &mut ja, &db, &root, JobMode::JobReplace).unwrap();
    assert_eq!(stage.len(), before);
}

#[test]
fn verify_rejects_what_contradicts() {
    let mut ja = JobAlloc::new();
    let mut jobs = JobTable::new();
    jobs.record_suspend(&mut ja, &conf(0, JobKind::JobStart)).unwrap();
    let mut stage = JobTable::new();
    stage.record_suspend(&mut ja, &conf(0, JobKind::JobStop)).unwrap();
    assert_eq!(job_trans_verify(&stage, &jobs, JobMode::JobReplace), Ok(()));
    assert_eq!(job_trans_verify(&stage, &jobs, JobMode::JobFail), Err(JobErrno::JobErrInput));
    assert!(stage.is_suspends_conflict_with(&jobs));
    stage.record_suspend(&mut ja, &conf(0, JobKind::JobReload)).unwrap();
    assert_eq!(job_trans_verify(&stage, &jobs, JobMode::JobReplace), Err(JobErrno::JobErrInput));
}

#[test]
fn commit_reports_three_lists() {
    let mut ja = JobAlloc::new();
    let mut jobs = JobTable::new();
    jobs.record_suspend(&mut ja, &conf(0, JobKind::JobStart)).unwrap();
    jobs.record_suspend(&mut ja, &conf(1, JobKind::JobStop)).unwrap();
    jobs.record_suspend(&mut ja, &conf(2, JobKind::JobNop)).unwrap();
    let mut stage = JobTable::new();
    stage.record_suspend(&mut ja, &conf(0, JobKind::JobStop)).unwrap();
    stage.record_suspend(&mut ja, &conf(1, JobKind::JobStop)).unwrap();
    stage.record_suspend(&mut ja, &conf(3, JobKind::JobStart)).unwrap();
    let (adds, dels, updates) = jobs.commit(&stage, JobMode::JobReplace).unwrap();
    assert_eq!(adds.iter().map(|j| j.id).collect::<Vec<u32>>(), vec![4, 6]);
    assert_eq!(dels.iter().map(|j| j.id).collect::<Vec<u32>>(), vec![1]);
    assert_eq!(updates.iter().map(|j| j.id).collect::<Vec<u32>>(), vec![2]);
    assert_eq!(jobs.jobs().iter().map(|j| j.id).collect::<Vec<u32>>(), vec![2, 3, 4, 6]);
    assert_eq!(jobs_2_jobinfo(&adds)[1].unit, 3);
}

#[test]
fn commit_of_an_empty_stage_changes_nothing() {
    let mut ja = JobAlloc::new();
    let mut jobs = JobTable::new();
    jobs.record_suspend(&mut ja, &conf(0, JobKind::JobStart)).unwrap();
    let before = jobs.jobs();
    let stage = JobTable::new();
    for mode in [JobMode::JobReplace, JobMode::JobFail, JobMode::JobIsolate] {
        let (adds, dels, updates) = jobs.commit(&stage, mode).unwrap();
        assert_eq!((adds.len(), dels.len(), updates.len()), (0, 0, 0));
        assert_eq!(jobs.jobs(), before);
    }
}

#[test]
fn commit_in_fail_mode_is_all_or_nothing() {
    let mut ja = JobAlloc::new();
    let mut jobs = JobTable::new();
    jobs.record_suspend(&mut ja, &conf(0, JobKind::JobStart)).unwrap();
    let before = jobs.jobs();
    let mut stage = JobTable::new();
    stage.record_suspend(&mut ja, &conf(1, JobKind::JobStart)).unwrap();
    stage.record_suspend(&mut ja, &conf(0, JobKind::JobStop)).unwrap();
    assert_eq!(jobs.commit(&stage, JobMode::JobFail).err(), Some(JobErrno::JobErrInput));
    assert_eq!(jobs.jobs(), before);
}

#[test]
fn table_triggers_in_table_order() {
    let db = db_of(2);
    let mut ja = JobAlloc::new();
    let mut jobs = JobTable::new();
    jobs.record_suspend(&mut ja, &conf(0, JobKind::JobStart)).unwrap();
    jobs.record_suspend(&mut ja, &conf(0, JobKind::JobReload)).unwrap();
    jobs.record_suspend(&mut ja, &conf(1, JobKind::JobStart)).unwrap();
    assert_eq!(jobs.ready_len(), 2);
    assert!(jobs.is_ready());
    let (first, fresh) = jobs.try_trigger(&db).unwrap();
    assert_eq!((first.id, fresh, first.stage), (1, true, JobStage::JobRunning));
    assert!(jobs.is_trigger(1));
    assert_eq!(jobs.get_trigger_info(0), Some((first, false)));
    // the second job of unit 0 has to wait for the first
    let (second, _) = jobs.try_trigger(&db).unwrap();
    assert_eq!(second.id, 3);
    assert!(jobs.try_trigger(&db).is_none());
    assert_eq!(jobs.ready_len(), 0);
    assert_eq!(jobs.finish_trigger(0, JobResult::JobDone).unwrap().id, 1);
    assert!(jobs.finish_trigger(0, JobResult::JobDone).is_none());
    assert_eq!(jobs.ready_len(), 1);
    let (third, _) = jobs.try_trigger(&db).unwrap();
    assert_eq!(third.id, 2);
}

#[test]
fn paused_trigger_comes_back_when_resumed() {
    let db = db_of(1);
    let mut ja = JobAlloc::new();
    let mut jobs = JobTable::new();
    jobs.record_suspend(&mut ja, &conf(0, JobKind::JobStart)).unwrap();
    jobs.try_trigger(&db).unwrap();
    jobs.resume_unit(0);
    assert!(jobs.try_trigger(&db).is_none());
    jobs.pause_unit(0);
    assert_eq!(jobs.get_trigger_info(0).unwrap().1, true);
    assert!(jobs.try_trigger(&db).is_none());
    jobs.resume_unit(0);
    assert_eq!(jobs.get_trigger_info(0).unwrap().1, false);
    let (again, fresh) = jobs.try_trigger(&db).unwrap();
    assert_eq!((again.id, fresh), (1, false));
    assert!(jobs.try_trigger(&db).is_none());
}

#[test]
fn stop_goes_first_where_units_are_ordered() {
    let mut db = db_of(2);
    db.dep_insert(0, UnitRelations::UnitBefore, 1, true, 0).unwrap();
    let mut ja = JobAlloc::new();
    let mut jobs = JobTable::new();
    // unit 0 comes before unit 1: a stop of unit 1 holds up any job of unit 0
    jobs.record_suspend(&mut ja, &conf(0, JobKind::JobStop)).unwrap();
    jobs.record_suspend(&mut ja, &conf(1, JobKind::JobStop)).unwrap();
    let (first, _) = jobs.try_trigger(&db).unwrap();
    assert_eq!(first.unit, 1);
    assert!(jobs.try_trigger(&db).is_none());
    jobs.finish_trigger(1, JobResult::JobDone);
    let (second, _) = jobs.try_trigger(&db).unwrap();
    assert_eq!(second.unit, 0);
}

#[test]
fn removal_by_unit_and_by_request() {
    let db = db_of(2);
    let mut ja = JobAlloc::new();
    let mut jobs = JobTable::new();
    jobs.record_suspend(&mut ja, &conf(0, JobKind::JobStart)).unwrap();
    jobs.record_suspend(&mut ja, &conf(1, JobKind::JobStart)).unwrap();
    jobs.try_trigger(&db).unwrap();
    jobs.record_suspend(&mut ja, &conf(0, JobKind::JobVerify)).unwrap();
    jobs.record_suspend(&mut ja, &conf(0, JobKind::JobReload)).unwrap();
    let dels = jobs.remove_suspends(0, JobKind::JobStart, Some(JobKind::JobVerify));
    assert_eq!(dels.iter().map(|j| j.id).collect::<Vec<u32>>(), vec![3]);
    let (trigger, suspends) = jobs.remove_unit(0);
    assert_eq!(trigger.unwrap().id, 1);
    assert_eq!(suspends.iter().map(|j| j.id).collect::<Vec<u32>>(), vec![4]);
    assert_eq!(jobs.jobs().iter().map(|j| j.id).collect::<Vec<u32>>(), vec![2]);
}

#[test]
fn fallback_goes_one_level_only() {
    let mut db = db_of(3);
    db.dep_insert(1, UnitRelations::UnitRequires, 0, true, 0).unwrap();
    db.dep_insert(2, UnitRelations::UnitRequires, 1, true, 0).unwrap();
    let mut ja = JobAlloc::new();
    let mut jobs = JobTable::new();
    jobs.record_suspend(&mut ja, &conf(1, JobKind::JobStart)).unwrap();
    jobs.record_suspend(&mut ja, &conf(2, JobKind::JobStart)).unwrap();
    jobs.record_suspend(&mut ja, &conf(1, JobKind::JobStop)).unwrap();
    let gone = job_trans_fallback(&mut jobs, &db, 0, JobKind::JobStart);
    assert_eq!(gone.iter().map(|j| j.id).collect::<Vec<u32>>(), vec![1]);
    assert_eq!(jobs.jobs().iter().map(|j| j.id).collect::<Vec<u32>>(), vec![2, 3]);
    assert_eq!(job_trans_fallback(&mut jobs, &db, 0, JobKind::JobReload).len(), 0);
    assert_eq!(jobs.len(), 2);
}

#[test]
fn check_input_knows_the_modes() {
    let mut db = db_of(1);
    let start = conf(0, JobKind::JobStart);
    let stop = conf(0, JobKind::JobStop);
    assert_eq!(job_trans_check_input(&db, &start, JobMode::JobReplace), Ok(()));
    assert_eq!(job_trans_check_input(&db, &start, JobMode::JobIsolate), Err(JobErrno::JobErrInput));
    assert_eq!(job_trans_check_input(&db, &start, JobMode::JobTrigger), Err(JobErrno::JobErrInput));
    assert_eq!(job_trans_check_input(&db, &stop, JobMode::JobTrigger), Ok(()));
    db.units_configure(0, true, JobMode::JobReplace).unwrap();
    assert_eq!(job_trans_check_input(&db, &start, JobMode::JobIsolate), Ok(()));
    assert_eq!(job_trans_check_input(&db, &stop, JobMode::JobIsolate), Err(JobErrno::JobErrInput));
}

#[test]
fn notifications_name_their_modes() {
    let mut db = db_of(4);
    db.dep_insert(0, UnitRelations::UnitRequires, 1, true, 0).unwrap();
    db.dep_insert(0, UnitRelations::UnitWants, 2, true, 0).unwrap();
    db.dep_insert(0, UnitRelations::UnitConflicts, 3, true, 0).unwrap();
    db.dep_insert(0, UnitRelations::UnitOnFailure, 3, true, 0).unwrap();
    let start = conf(0, JobKind::JobStart);
    assert_eq!(
        job_notify_event(&db, &start, None),
        vec![
            (conf(1, JobKind::JobStart), JobMode::JobReplace),
            (conf(2, JobKind::JobStart), JobMode::JobFail),
            (conf(3, JobKind::JobStop), JobMode::JobReplace)
        ]
    );
    assert_eq!(
        job_notify_event(&db, &start, Some(JobMode::JobIgnoreDependencies))[1].1,
        JobMode::JobIgnoreDependencies
    );
    assert_eq!(job_notify_event(&db, &conf(0, JobKind::JobVerify), None).len(), 0);
    assert_eq!(
        job_notify_result(&db, 0, UnitRelationAtom::UnitAtomOnFailure, JobMode::JobFail),
        (vec![conf(3, JobKind::JobStart)], JobMode::JobFail)
    );
}

#[test]
fn affect_records_only_when_interested() {
    let job = Job::new(1, &conf(0, JobKind::JobStart));
    let lists = (vec![job], Vec::new(), vec![job, job]);
    let mut affect = JobAffect::new(false);
    affect.record(&lists);
    assert_eq!((affect.adds.len(), affect.dels.len(), affect.updates.len()), (0, 0, 0));
    let mut affect = JobAffect::new(true);
    affect.record(&lists);
    affect.record(&lists);
    assert_eq!((affect.adds.len(), affect.dels.len(), affect.updates.len()), (2, 0, 4));
    assert_eq!(affect.adds[0], JobInfo::map(&job));
}
