//! What follows from a change that no job brought about: the requests that are to be
//! queued on account of it, each with the mode in which to queue it.
use crate::job_entry::{JobConf, JobKind};
use crate::seq_util::lemma_map_values_push;
use crate::unit::{JobMode, UnitDb, UnitId, UnitRelationAtom};
use vstd::prelude::*;

verus! {

/// What makes of a unit the request for `kind` on it, to be queued in `mode`.
pub open spec fn target_for(kind: JobKind, mode: JobMode) -> spec_fn(UnitId) -> (JobConf, JobMode) {
    |u: UnitId| ((JobConf { unit: u, kind }), mode)
}

/// The requests for `kind` on each of `units`, to be queued in `mode`.
pub open spec fn targets_of(units: Seq<UnitId>, kind: JobKind, mode: JobMode) -> Seq<
    (JobConf, JobMode),
> {
    units.map_values(target_for(kind, mode))
}

/// The mode asked for, or `otherwise` if none was asked for.
pub open spec fn mode_or(mode_option: Option<JobMode>, otherwise: JobMode) -> JobMode {
    match mode_option {
        Some(mode) => mode,
        None => otherwise,
    }
}

/// What is to be queued when something has happened to the unit of `config` as if the
/// job `config` had run.
///
/// After a start: a start of what the unit requires, replacing queued work; a start
/// of what it wants, unless that contradicts queued work; and a stop of what it
/// conflicts with. After a stop: a stop of the units bound to it. After a reload: a
/// reload of the units that reload with it, unless that contradicts queued work. A
/// mode that the caller names is used in place of these.
pub open spec fn job_notify_event_spec(
    db: &UnitDb,
    config: JobConf,
    mode_option: Option<JobMode>,
) -> Seq<(JobConf, JobMode)> {
    match config.kind {
        JobKind::JobStart => targets_of(
            db.atom_dests(config.unit, UnitRelationAtom::UnitAtomRetroActiveStartReplace),
            JobKind::JobStart,
            mode_or(mode_option, JobMode::JobReplace),
        ) + targets_of(
            db.atom_dests(config.unit, UnitRelationAtom::UnitAtomRetroActiveStartFail),
            JobKind::JobStart,
            mode_or(mode_option, JobMode::JobFail),
        ) + targets_of(
            db.atom_dests(config.unit, UnitRelationAtom::UnitAtomRetroActiveStopOnStart),
            JobKind::JobStop,
            mode_or(mode_option, JobMode::JobReplace),
        ),
        JobKind::JobStop => targets_of(
            db.atom_dests(config.unit, UnitRelationAtom::UnitAtomRetroActiveStopOnStop),
            JobKind::JobStop,
            mode_or(mode_option, JobMode::JobReplace),
        ),
        JobKind::JobReload => targets_of(
            db.atom_dests(config.unit, UnitRelationAtom::UnitAtomPropagatesReloadTo),
            JobKind::JobReload,
            mode_or(mode_option, JobMode::JobFail),
        ),
        _ => Seq::empty(),
    }
}

/// What is to be queued on account of the relation `atom` of `unit`: a start of each
/// unit that it leads to, in `mode`.
pub open spec fn job_notify_result_spec(
    db: &UnitDb,
    unit: UnitId,
    atom: UnitRelationAtom,
    mode: JobMode,
) -> Seq<(JobConf, JobMode)> {
    targets_of(db.atom_dests(unit, atom), JobKind::JobStart, mode)
}

fn push_targets(
    out: &mut Vec<(JobConf, JobMode)>,
    db: &UnitDb,
    unit: UnitId,
    atom: UnitRelationAtom,
    kind: JobKind,
    mode: JobMode,
)
    ensures
        final(out)@ == old(out)@ + targets_of(db.atom_dests(unit, atom), kind, mode),
{
    let dests = db.dep_gets_atom(unit, atom);
    let ghost before = out@;
    let ghost make = target_for(kind, mode);
    let mut i: usize = 0;
    proof {
        assert(dests@.take(0).map_values(make) =~= Seq::<(JobConf, JobMode)>::empty());
        assert(out@ =~= before + dests@.take(0).map_values(make));
    }
    while i < dests.len()
        invariant
            i <= dests.len(),
            make == target_for(kind, mode),
            out@ == before + dests@.take(i as int).map_values(make),
        decreases dests.len() - i,
    {
        proof {
            lemma_map_values_push(dests@.take(i as int), make, dests@[i as int]);
            assert(dests@.take(i + 1) =~= dests@.take(i as int).push(dests@[i as int]));
            assert((before + dests@.take(i as int).map_values(make)).push(make(dests@[i as int]))
                =~= before + dests@.take(i as int).map_values(make).push(make(dests@[i as int])));
        }
        out.push((JobConf { unit: dests[i], kind }, mode));
        i = i + 1;
    }
    proof {
        assert(dests@.take(i as int) =~= dests@);
    }
}

fn pick_mode(mode_option: Option<JobMode>, otherwise: JobMode) -> (mode: JobMode)
    ensures
        mode == mode_or(mode_option, otherwise),
{
    match mode_option {
        Some(mode) => mode,
        None => otherwise,
    }
}

/// What is to be queued when something has happened to the unit of `config` as if the
/// job `config` had run.
pub fn job_notify_event(db: &UnitDb, config: &JobConf, mode_option: Option<JobMode>) -> (targets:
    Vec<(JobConf, JobMode)>)
    ensures
        targets@ == job_notify_event_spec(db, *config, mode_option),
{
    let mut targets: Vec<(JobConf, JobMode)> = Vec::new();
    let unit = config.unit;
    match config.kind {
        JobKind::JobStart => {
            push_targets(
                &mut targets,
                db,
                unit,
                UnitRelationAtom::UnitAtomRetroActiveStartReplace,
                JobKind::JobStart,
                pick_mode(mode_option, JobMode::JobReplace),
            );
            push_targets(
                &mut targets,
                db,
                unit,
                UnitRelationAtom::UnitAtomRetroActiveStartFail,
                JobKind::JobStart,
                pick_mode(mode_option, JobMode::JobFail),
            );
            push_targets(
                &mut targets,
                db,
                unit,
                UnitRelationAtom::UnitAtomRetroActiveStopOnStart,
                JobKind::JobStop,
                pick_mode(mode_option, JobMode::JobReplace),
            );
            proof {
                assert(targets@ =~= job_notify_event_spec(db, *config, mode_option));
            }
        },
        JobKind::JobStop => {
            push_targets(
                &mut targets,
                db,
                unit,
                UnitRelationAtom::UnitAtomRetroActiveStopOnStop,
                JobKind::JobStop,
                pick_mode(mode_option, JobMode::JobReplace),
            );
            proof {
                assert(targets@ =~= job_notify_event_spec(db, *config, mode_option));
            }
        },
        JobKind::JobReload => {
            push_targets(
                &mut targets,
                db,
                unit,
                UnitRelationAtom::UnitAtomPropagatesReloadTo,
                JobKind::JobReload,
                pick_mode(mode_option, JobMode::JobFail),
            );
            proof {
                assert(targets@ =~= job_notify_event_spec(db, *config, mode_option));
            }
        },
        _ => {},
    }
    targets
}

/// What is to be queued on account of the relation `atom` of `unit`: the requests,
/// and the one mode for all of them.
pub fn job_notify_result(db: &UnitDb, unit: UnitId, atom: UnitRelationAtom, mode: JobMode) -> (out: (
    Vec<JobConf>,
    JobMode,
))
    ensures
        out.1 == mode,
        out.0@.len() == db.atom_dests(unit, atom).len(),
        forall|k: int|
            0 <= k < out.0@.len() ==> (#[trigger] out.0@[k], mode) == job_notify_result_spec(
                db,
                unit,
                atom,
                mode,
            )[k],
{
    let dests = db.dep_gets_atom(unit, atom);
    let mut configs: Vec<JobConf> = Vec::new();
    let mut i: usize = 0;
    while i < dests.len()
        invariant
            i <= dests.len(),
            dests@ == db.atom_dests(unit, atom),
            configs@.len() == i,
            forall|k: int|
                0 <= k < i ==> #[trigger] configs@[k] == (JobConf {
                    unit: dests@[k],
                    kind: JobKind::JobStart,
                }),
        decreases dests.len() - i,
    {
        configs.push(JobConf { unit: dests[i], kind: JobKind::JobStart });
        i = i + 1;
    }
    (configs, mode)
}

} // verus!
