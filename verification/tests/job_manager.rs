use process1::job_entry::{JobConf, JobErrno, JobKind, JobStage, UnitActionError};
use process1::job_manager::{EventState, JobAffect, JobManager, JobManagerData};
use process1::unit::{
    JobMode, UnitActiveState, UnitDb, UnitId, UnitNotifyFlags, UnitRelations, UnitType, UnitX,
    UNIT_NOTIFY_WILL_AUTO_RESTART,
};

fn create_unit(name: &str) -> UnitX {
    UnitX::new(UnitType::UnitService, name)
}

fn two_units() -> (UnitDb, UnitId, UnitId) {
    let mut db = UnitDb::new();
    let name_test1 = String::from("test1.service");
    let name_test2 = String::from("test2.service");
    let unit_test1 = db.units_insert(name_test1.clone(), create_unit(&name_test1));
    let unit_test2 = db.units_insert(name_test2.clone(), create_unit(&name_test2));
    (db, unit_test1, unit_test2)
}

#[test]
fn job_exec_single() {
    let (db, unit_test1, _unit_test2) = two_units();
    let mut jm = JobManager::new();

    let mut affect = JobAffect::new(true);
    let ret = jm.exec(
        &db,
        &JobConf::new(unit_test1, JobKind::JobStart),
        JobMode::JobReplace,
        &mut affect,
    );
    assert!(ret.is_ok());
    assert_eq!(jm.data.jobs_len(), 1);
    assert_eq!(jm.data.jobs_ready_len(), 1);

    assert_eq!(affect.adds.len(), 1);
    let job_info = affect.adds.pop().unwrap();
    assert!(job_info.unit == unit_test1);
    assert_eq!(job_info.kind, JobKind::JobStart);
    assert_eq!(job_info.run_kind, JobKind::JobStart);
    assert_eq!(job_info.stage, JobStage::JobWait);
}

#[test]
fn job_exec_multi() {
    let (mut db, unit_test1, unit_test2) = two_units();
    let relation = UnitRelations::UnitRequires;
    db.dep_insert(unit_test1, relation, unit_test2, true, 0).unwrap();
    let mut jm = JobManager::new();

    let mut affect = JobAffect::new(true);
    let ret = jm.exec(
        &db,
        &JobConf::new(unit_test1, JobKind::JobStart),
        JobMode::JobReplace,
        &mut affect,
    );
    assert!(ret.is_ok());
    assert_eq!(jm.data.jobs_len(), 2);
    assert_eq!(jm.data.jobs_ready_len(), 2);
    assert_eq!(affect.adds.len(), 2);
    let job_info1 = affect.adds.pop().unwrap();
    assert!(job_info1.unit == unit_test1 || job_info1.unit == unit_test2);
    assert_eq!(job_info1.kind, JobKind::JobStart);
    assert_eq!(job_info1.run_kind, JobKind::JobStart);
    assert_eq!(job_info1.stage, JobStage::JobWait);
    let job_info2 = affect.adds.pop().unwrap();
    assert!(job_info1.unit != job_info2.unit);
    assert!(job_info2.unit == unit_test1 || job_info2.unit == unit_test2);
    assert_eq!(job_info2.kind, JobKind::JobStart);
    assert_eq!(job_info2.run_kind, JobKind::JobStart);
    assert_eq!(job_info2.stage, JobStage::JobWait);
}

#[test]
fn job_run_finish_single() {
    let (db, unit_test1, _unit_test2) = two_units();
    let mut jm = JobManager::new();

    jm.exec(
        &db,
        &JobConf::new(unit_test1, JobKind::JobNop),
        JobMode::JobReplace,
        &mut JobAffect::new(false),
    )
    .unwrap();
    assert_eq!(jm.data.jobs_len(), 1);
    assert_eq!(jm.data.jobs_ready_len(), 1);

    jm.data.run(&db);
    assert_eq!(jm.data.jobs_len(), 0);
    assert_eq!(jm.data.jobs_ready_len(), 0);
}

#[test]
fn job_run_finish_multi() {
    let (db, unit_test1, unit_test2) = two_units();
    let mut jm = JobManager::new();

    jm.exec(
        &db,
        &JobConf::new(unit_test1, JobKind::JobNop),
        JobMode::JobReplace,
        &mut JobAffect::new(false),
    )
    .unwrap();
    jm.exec(
        &db,
        &JobConf::new(unit_test2, JobKind::JobNop),
        JobMode::JobReplace,
        &mut JobAffect::new(false),
    )
    .unwrap();
    assert_eq!(jm.data.jobs_len(), 2);
    assert_eq!(jm.data.jobs_ready_len(), 2);

    jm.data.run(&db);
    assert_eq!(jm.data.jobs_len(), 0);
    assert_eq!(jm.data.jobs_ready_len(), 0);
}

fn stats_match(jm: &JobManager) {
    assert_eq!(jm.data.stat_wait_len() + jm.data.stat_run_len(), jm.data.jobs_len());
}

#[test]
fn exec_arms_the_manager() {
    let (db, unit_test1, _) = two_units();
    let mut jm = JobManager::new();
    assert_eq!(jm.enabled, EventState::Off);
    jm.exec(
        &db,
        &JobConf::new(unit_test1, JobKind::JobStart),
        JobMode::JobReplace,
        &mut JobAffect::new(false),
    )
    .unwrap();
    assert_eq!(jm.enabled, EventState::OneShot);
    let action = jm.dispatch(&db);
    assert_eq!(jm.enabled, EventState::Off);
    let info = action.unwrap();
    assert_eq!(info.unit, unit_test1);
    assert_eq!(info.stage, JobStage::JobRunning);
    stats_match(&jm);
    assert_eq!(jm.data.stat_run_len(), 1);
    assert_eq!(jm.data.stat_wait_len(), 0);
}

#[test]
fn remove_of_unknown_id_is_not_found() {
    let (db, _, _) = two_units();
    let mut jm = JobManager::new();
    assert_eq!(jm.remove(&db, 42), Err(JobErrno::JobErrNotExisted));
}

#[test]
fn remove_of_trigger_is_not_supported() {
    let (db, unit_test1, _) = two_units();
    let mut jm = JobManager::new();
    let mut affect = JobAffect::new(true);
    jm.exec(&db, &JobConf::new(unit_test1, JobKind::JobStart), JobMode::JobReplace, &mut affect)
        .unwrap();
    let id = affect.adds[0].id;
    let info = jm.data.run(&db).unwrap();
    assert_eq!(info.id, id);
    jm.data.run_done(&db, Ok(()));
    assert_eq!(jm.remove(&db, id), Err(JobErrno::JobErrNotSupported));
    assert_eq!(jm.data.jobs_len(), 1);
    stats_match(&jm);
}

#[test]
fn remove_of_suspend_cancels_it() {
    let (db, unit_test1, _) = two_units();
    let mut jm = JobManager::new();
    let mut affect = JobAffect::new(true);
    jm.exec(&db, &JobConf::new(unit_test1, JobKind::JobStart), JobMode::JobReplace, &mut affect)
        .unwrap();
    let id = affect.adds[0].id;
    assert_eq!(jm.remove(&db, id), Ok(()));
    assert_eq!(jm.data.jobs_len(), 0);
    assert!(jm.get_jobinfo(id).is_none());
    stats_match(&jm);
}

#[test]
fn isolate_needs_start() {
    let (mut db, unit_test1, _) = two_units();
    db.units_configure(unit_test1, true, JobMode::JobReplace).unwrap();
    let mut jm = JobManager::new();
    let ret = jm.exec(
        &db,
        &JobConf::new(unit_test1, JobKind::JobStop),
        JobMode::JobIsolate,
        &mut JobAffect::new(false),
    );
    assert_eq!(ret, Err(JobErrno::JobErrInput));
    assert_eq!(jm.data.jobs_len(), 0);
}

#[test]
fn isolate_needs_permission() {
    let (db, unit_test1, _) = two_units();
    let mut jm = JobManager::new();
    let ret = jm.exec(
        &db,
        &JobConf::new(unit_test1, JobKind::JobStart),
        JobMode::JobIsolate,
        &mut JobAffect::new(false),
    );
    assert_eq!(ret, Err(JobErrno::JobErrInput));
    assert_eq!(jm.data.jobs_len(), 0);
}

#[test]
fn isolate_stops_the_others() {
    let (mut db, unit_test1, unit_test2) = two_units();
    db.units_configure(unit_test1, true, JobMode::JobReplace).unwrap();
    let mut jm = JobManager::new();
    let mut affect = JobAffect::new(true);
    jm.exec(&db, &JobConf::new(unit_test1, JobKind::JobStart), JobMode::JobIsolate, &mut affect)
        .unwrap();
    assert_eq!(affect.adds.len(), 2);
    assert_eq!(affect.adds[0].unit, unit_test1);
    assert_eq!(affect.adds[0].kind, JobKind::JobStart);
    assert_eq!(affect.adds[1].unit, unit_test2);
    assert_eq!(affect.adds[1].kind, JobKind::JobStop);
    assert!(jm.has_stop_job(unit_test2));
    assert!(!jm.has_stop_job(unit_test1));
}

#[test]
fn trigger_mode_needs_stop() {
    let (db, unit_test1, _) = two_units();
    let mut jm = JobManager::new();
    let ret = jm.exec(
        &db,
        &JobConf::new(unit_test1, JobKind::JobStart),
        JobMode::JobTrigger,
        &mut JobAffect::new(false),
    );
    assert_eq!(ret, Err(JobErrno::JobErrInput));
}

#[test]
fn same_request_twice_is_merged() {
    let (db, unit_test1, _) = two_units();
    let mut jm = JobManager::new();
    let mut first = JobAffect::new(true);
    jm.exec(&db, &JobConf::new(unit_test1, JobKind::JobStart), JobMode::JobReplace, &mut first)
        .unwrap();
    let wait = jm.data.stat_wait_len();
    let mut second = JobAffect::new(true);
    jm.exec(&db, &JobConf::new(unit_test1, JobKind::JobStart), JobMode::JobReplace, &mut second)
        .unwrap();
    assert_eq!(second.adds.len(), 0);
    assert_eq!(second.dels.len(), 0);
    assert_eq!(second.updates.len(), 1);
    assert_eq!(second.updates[0].id, first.adds[0].id);
    assert_eq!(jm.data.jobs_len(), 1);
    assert_eq!(jm.data.stat_wait_len(), wait);
    stats_match(&jm);
}

#[test]
fn fail_mode_rejects_a_conflict() {
    let (db, unit_test1, _) = two_units();
    let mut jm = JobManager::new();
    jm.exec(
        &db,
        &JobConf::new(unit_test1, JobKind::JobStart),
        JobMode::JobReplace,
        &mut JobAffect::new(false),
    )
    .unwrap();
    let mut affect = JobAffect::new(true);
    let ret =
        jm.exec(&db, &JobConf::new(unit_test1, JobKind::JobStop), JobMode::JobFail, &mut affect);
    assert_eq!(ret, Err(JobErrno::JobErrInput));
    assert_eq!(affect.adds.len(), 0);
    assert_eq!(jm.data.jobs_len(), 1);
    assert!(!jm.has_stop_job(unit_test1));
    stats_match(&jm);
}

#[test]
fn replace_mode_supersedes_a_conflict() {
    let (db, unit_test1, _) = two_units();
    let mut jm = JobManager::new();
    let mut first = JobAffect::new(true);
    jm.exec(&db, &JobConf::new(unit_test1, JobKind::JobStart), JobMode::JobReplace, &mut first)
        .unwrap();
    let mut affect = JobAffect::new(true);
    jm.exec(&db, &JobConf::new(unit_test1, JobKind::JobStop), JobMode::JobReplace, &mut affect)
        .unwrap();
    assert_eq!(affect.adds.len(), 1);
    assert_eq!(affect.dels.len(), 1);
    assert_eq!(affect.dels[0].id, first.adds[0].id);
    assert_eq!(jm.data.jobs_len(), 1);
    assert!(jm.has_stop_job(unit_test1));
    stats_match(&jm);
}

#[test]
fn conflicting_units_are_stopped_on_start() {
    let (mut db, unit_test1, unit_test2) = two_units();
    db.dep_insert(unit_test1, UnitRelations::UnitConflicts, unit_test2, true, 0).unwrap();
    let mut jm = JobManager::new();
    let mut affect = JobAffect::new(true);
    jm.exec(&db, &JobConf::new(unit_test1, JobKind::JobStart), JobMode::JobReplace, &mut affect)
        .unwrap();
    assert_eq!(affect.adds.len(), 2);
    assert!(jm.has_stop_job(unit_test2));
}

#[test]
fn ignoring_dependencies_queues_one_job() {
    let (mut db, unit_test1, unit_test2) = two_units();
    db.dep_insert(unit_test1, UnitRelations::UnitRequires, unit_test2, true, 0).unwrap();
    let mut jm = JobManager::new();
    let mut affect = JobAffect::new(true);
    jm.exec(
        &db,
        &JobConf::new(unit_test1, JobKind::JobStart),
        JobMode::JobIgnoreDependencies,
        &mut affect,
    )
    .unwrap();
    assert_eq!(affect.adds.len(), 1);
    assert_eq!(affect.adds[0].unit, unit_test1);
}

#[test]
fn start_waits_for_the_unit_it_comes_after() {
    let (mut db, unit_test1, unit_test2) = two_units();
    db.dep_insert(unit_test1, UnitRelations::UnitRequires, unit_test2, true, 0).unwrap();
    db.dep_insert(unit_test1, UnitRelations::UnitAfter, unit_test2, true, 0).unwrap();
    let mut jm = JobManager::new();
    jm.exec(
        &db,
        &JobConf::new(unit_test1, JobKind::JobStart),
        JobMode::JobReplace,
        &mut JobAffect::new(false),
    )
    .unwrap();
    // the job of test2 goes first although it was queued behind the job of test1
    let first = jm.data.run(&db).unwrap();
    assert_eq!(first.unit, unit_test2);
    jm.data.run_done(&db, Ok(()));
    // nothing else can be handed out while test2 is on its way
    assert!(jm.data.run(&db).is_none());
    jm.try_finish(
        &db,
        unit_test2,
        UnitActiveState::UnitActivating,
        UnitActiveState::UnitActive,
        UnitNotifyFlags::empty(),
    )
    .unwrap();
    assert_eq!(jm.data.jobs_len(), 1);
    let second = jm.data.run(&db).unwrap();
    assert_eq!(second.unit, unit_test1);
    stats_match(&jm);
}

#[test]
fn answer_already_ends_the_job_as_done() {
    let (db, unit_test1, _) = two_units();
    let mut jm = JobManager::new();
    jm.exec(
        &db,
        &JobConf::new(unit_test1, JobKind::JobStart),
        JobMode::JobReplace,
        &mut JobAffect::new(false),
    )
    .unwrap();
    jm.data.run(&db).unwrap();
    jm.data.run_done(&db, Err(UnitActionError::UnitActionEAlready));
    assert_eq!(jm.data.jobs_len(), 0);
    stats_match(&jm);
}

#[test]
fn answer_again_puts_the_job_off_until_the_unit_moves() {
    let (db, unit_test1, _) = two_units();
    let mut jm = JobManager::new();
    jm.exec(
        &db,
        &JobConf::new(unit_test1, JobKind::JobStart),
        JobMode::JobReplace,
        &mut JobAffect::new(false),
    )
    .unwrap();
    let first = jm.data.run(&db).unwrap();
    jm.data.run_done(&db, Err(UnitActionError::UnitActionEAgain));
    assert_eq!(jm.data.jobs_len(), 1);
    assert_eq!(jm.data.jobs_ready_len(), 0);
    assert!(jm.data.run(&db).is_none());
    jm.try_finish(
        &db,
        unit_test1,
        UnitActiveState::UnitDeActivating,
        UnitActiveState::UnitInActive,
        UnitNotifyFlags::empty(),
    )
    .unwrap();
    assert_eq!(jm.data.jobs_ready_len(), 1);
    let again = jm.data.run(&db).unwrap();
    assert_eq!(again.id, first.id);
    stats_match(&jm);
}

#[test]
fn failed_start_takes_the_dependent_start_with_it() {
    let (mut db, unit_test1, unit_test2) = two_units();
    db.dep_insert(unit_test1, UnitRelations::UnitRequires, unit_test2, true, 0).unwrap();
    db.dep_insert(unit_test1, UnitRelations::UnitAfter, unit_test2, true, 0).unwrap();
    let mut jm = JobManager::new();
    jm.exec(
        &db,
        &JobConf::new(unit_test1, JobKind::JobStart),
        JobMode::JobReplace,
        &mut JobAffect::new(false),
    )
    .unwrap();
    let first = jm.data.run(&db).unwrap();
    assert_eq!(first.unit, unit_test2);
    jm.data.run_done(&db, Err(UnitActionError::UnitActionEFailed));
    assert_eq!(jm.data.jobs_len(), 0);
    stats_match(&jm);
}

#[test]
fn state_change_during_the_answer_is_kept_back_once() {
    let (db, unit_test1, _) = two_units();
    let mut jm = JobManager::new();
    jm.exec(
        &db,
        &JobConf::new(unit_test1, JobKind::JobStart),
        JobMode::JobReplace,
        &mut JobAffect::new(false),
    )
    .unwrap();
    jm.data.run(&db).unwrap();
    let flags = UnitNotifyFlags::empty();
    let up = UnitActiveState::UnitActive;
    let down = UnitActiveState::UnitInActive;
    assert_eq!(jm.try_finish(&db, unit_test1, down, up, flags), Ok(()));
    assert_eq!(jm.data.jobs_len(), 1);
    assert_eq!(jm.try_finish(&db, unit_test1, down, up, flags), Err(JobErrno::JobErrInput));
    jm.data.run_done(&db, Ok(()));
    assert_eq!(jm.data.jobs_len(), 0);
    stats_match(&jm);
}

#[test]
fn restart_stops_and_then_starts() {
    let (db, unit_test1, _) = two_units();
    let mut jm = JobManager::new();
    jm.exec(
        &db,
        &JobConf::new(unit_test1, JobKind::JobRestart),
        JobMode::JobReplace,
        &mut JobAffect::new(false),
    )
    .unwrap();
    let stop = jm.data.run(&db).unwrap();
    assert_eq!(stop.kind, JobKind::JobRestart);
    assert_eq!(stop.run_kind, JobKind::JobStop);
    jm.data.run_done(&db, Ok(()));
    jm.try_finish(
        &db,
        unit_test1,
        UnitActiveState::UnitDeActivating,
        UnitActiveState::UnitInActive,
        UnitNotifyFlags::empty(),
    )
    .unwrap();
    assert_eq!(jm.data.jobs_len(), 1);
    assert_eq!(jm.data.stat_wait_len(), 1);
    let start = jm.data.run(&db).unwrap();
    assert_eq!(start.id, stop.id);
    assert_eq!(start.run_kind, JobKind::JobStart);
    stats_match(&jm);
}

#[test]
fn failure_queues_the_failure_jobs() {
    let (mut db, unit_test1, unit_test2) = two_units();
    db.units_configure(unit_test1, false, JobMode::JobFail).unwrap();
    db.dep_insert(unit_test1, UnitRelations::UnitOnFailure, unit_test2, true, 0).unwrap();
    let mut jm = JobManager::new();
    jm.try_finish(
        &db,
        unit_test1,
        UnitActiveState::UnitActive,
        UnitActiveState::UnitFailed,
        UnitNotifyFlags::empty(),
    )
    .unwrap();
    assert_eq!(jm.data.jobs_len(), 1);
    let info = jm.data.run(&db).unwrap();
    assert_eq!(info.unit, unit_test2);
    assert_eq!(info.kind, JobKind::JobStart);
}

#[test]
fn failure_of_a_unit_that_restarts_itself_queues_nothing() {
    let (mut db, unit_test1, unit_test2) = two_units();
    db.units_configure(unit_test1, false, JobMode::JobFail).unwrap();
    db.dep_insert(unit_test1, UnitRelations::UnitOnFailure, unit_test2, true, 0).unwrap();
    let mut jm = JobManager::new();
    jm.try_finish(
        &db,
        unit_test1,
        UnitActiveState::UnitActive,
        UnitActiveState::UnitFailed,
        UnitNotifyFlags::from_bits(UNIT_NOTIFY_WILL_AUTO_RESTART),
    )
    .unwrap();
    assert_eq!(jm.data.jobs_len(), 0);
}

#[test]
fn coming_up_without_a_job_starts_what_is_required() {
    let (mut db, unit_test1, unit_test2) = two_units();
    db.dep_insert(unit_test1, UnitRelations::UnitRequires, unit_test2, true, 0).unwrap();
    let mut jm = JobManager::new();
    jm.try_finish(
        &db,
        unit_test1,
        UnitActiveState::UnitInActive,
        UnitActiveState::UnitActive,
        UnitNotifyFlags::empty(),
    )
    .unwrap();
    assert_eq!(jm.data.jobs_len(), 1);
    let info = jm.data.run(&db).unwrap();
    assert_eq!(info.unit, unit_test2);
    assert_eq!(info.kind, JobKind::JobStart);
}

#[test]
fn notify_is_for_reloads_only() {
    let (mut db, unit_test1, unit_test2) = two_units();
    db.dep_insert(unit_test1, UnitRelations::UnitPropagatesReloadTo, unit_test2, true, 0).unwrap();
    let mut jm = JobManager::new();
    assert_eq!(
        jm.notify(&db, &JobConf::new(unit_test1, JobKind::JobStart), JobMode::JobReplace),
        Err(JobErrno::JobErrInput)
    );
    assert_eq!(jm.data.jobs_len(), 0);
    assert_eq!(
        jm.notify(&db, &JobConf::new(unit_test1, JobKind::JobReload), JobMode::JobReplace),
        Ok(())
    );
    assert_eq!(jm.data.jobs_len(), 1);
    let info = jm.data.run(&db).unwrap();
    assert_eq!(info.unit, unit_test2);
    assert_eq!(info.kind, JobKind::JobReload);
}

#[test]
fn removed_unit_loses_its_jobs() {
    let (mut db, unit_test1, unit_test2) = two_units();
    db.dep_insert(unit_test1, UnitRelations::UnitRequires, unit_test2, true, 0).unwrap();
    let mut jm = JobManager::new();
    jm.exec(
        &db,
        &JobConf::new(unit_test1, JobKind::JobStart),
        JobMode::JobReplace,
        &mut JobAffect::new(false),
    )
    .unwrap();
    jm.data.run(&db).unwrap();
    jm.data.run_done(&db, Ok(()));
    assert_eq!(jm.data.stat_run_len(), 1);
    jm.unit_removed(unit_test1);
    assert_eq!(jm.data.jobs_len(), 1);
    assert_eq!(jm.data.stat_run_len(), 0);
    stats_match(&jm);
    jm.unit_removed(unit_test2);
    assert_eq!(jm.data.jobs_len(), 0);
    stats_match(&jm);
}

#[test]
fn end_of_a_job_owes_a_notice_to_the_triggering_unit() {
    let (mut db, unit_test1, unit_test2) = two_units();
    db.dep_insert(unit_test1, UnitRelations::UnitTriggeredBy, unit_test2, true, 0).unwrap();
    let mut jm = JobManager::new();
    jm.exec(
        &db,
        &JobConf::new(unit_test1, JobKind::JobNop),
        JobMode::JobReplace,
        &mut JobAffect::new(false),
    )
    .unwrap();
    assert!(jm.data.run(&db).is_none());
    let notices = jm.data.take_notices();
    assert_eq!(notices, vec![(unit_test2, unit_test1)]);
    assert_eq!(jm.data.take_notices().len(), 0);
}

#[test]
fn job_ids_rise() {
    let (db, unit_test1, unit_test2) = two_units();
    let mut jm = JobManager::new();
    let mut first = JobAffect::new(true);
    jm.exec(&db, &JobConf::new(unit_test1, JobKind::JobStart), JobMode::JobReplace, &mut first)
        .unwrap();
    let mut second = JobAffect::new(true);
    jm.exec(&db, &JobConf::new(unit_test2, JobKind::JobStart), JobMode::JobReplace, &mut second)
        .unwrap();
    assert_eq!(first.adds[0].id, 1);
    assert_eq!(second.adds[0].id, 2);
    assert_eq!(jm.get_jobinfo(2).unwrap().unit, unit_test2);
}

#[test]
fn exec_fails_when_the_identities_run_out() {
    let (mut db, unit_test1, unit_test2) = two_units();
    db.dep_insert(unit_test1, UnitRelations::UnitRequires, unit_test2, true, 0).unwrap();
    let mut data = JobManagerData::with_ids_from(u32::MAX - 1);
    let mut affect = JobAffect::new(true);
    let start = JobConf::new(unit_test1, JobKind::JobStart);
    // two jobs are needed and one identity is left
    assert_eq!(data.exec(&db, &start, JobMode::JobReplace, &mut affect), Err(JobErrno::JobErrInternel));
    assert_eq!(data.jobs_len(), 0);
    assert_eq!(affect.adds.len(), 0);
    assert_eq!(data.stat_wait_len(), 0);

    let mut data = JobManagerData::with_ids_from(u32::MAX - 1);
    let nop = JobConf::new(unit_test1, JobKind::JobNop);
    assert_eq!(data.exec(&db, &nop, JobMode::JobReplace, &mut affect), Ok(()));
    assert_eq!(affect.adds[0].id, u32::MAX);
    let other = JobConf::new(unit_test2, JobKind::JobNop);
    assert_eq!(data.exec(&db, &other, JobMode::JobReplace, &mut affect), Err(JobErrno::JobErrInternel));
    // every job of a stage takes an identity, also one that would only be merged
    assert_eq!(data.exec(&db, &nop, JobMode::JobReplace, &mut affect), Err(JobErrno::JobErrInternel));
    assert_eq!(data.jobs_len(), 1);
    assert_eq!(data.stat_wait_len(), 1);
}
