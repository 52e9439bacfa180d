//! Transactions: one request is expanded into the set of jobs that it implies, the
//! set is checked against the work that is queued already, and jobs that hang on a
//! failed one are cancelled.
use crate::job_alloc::JobAlloc;
use crate::job_entry::{Job, JobConf, JobErrno, JobKind};
use crate::job_table::{
    all_waiting, conf_seq, confs, has_suspend, lemma_conf_seq_contains, lemma_conf_seq_push,
    has_unit, ids_below, not_suspend_of, run_count, stage_accepted, suspend_of, wait_count,
    JobTable,
};
use crate::seq_util::{lemma_filter_filter, lemma_filter_member, lemma_map_values_push};
use crate::unit::{JobMode, UnitDb, UnitId, UnitRelationAtom};
use vstd::prelude::*;

verus! {

/// What makes of a unit the request for `kind` on it.
pub open spec fn conf_for(kind: JobKind) -> spec_fn(UnitId) -> JobConf {
    |u: UnitId| (JobConf { unit: u, kind })
}

/// The requests for `kind` on each of `units`.
pub open spec fn confs_of(units: Seq<UnitId>, kind: JobKind) -> Seq<JobConf> {
    units.map_values(conf_for(kind))
}

/// Whether transactions in `mode` leave the dependencies of a unit alone.
pub open spec fn mode_ignores_deps(mode: JobMode) -> bool {
    mode == JobMode::JobIgnoreDependencies || mode == JobMode::JobIgnoreRequirements
}

/// What the start of `unit` pulls in: the start of what it requires or wants, a check
/// on what it needs to be up already, and the stop of what it conflicts with.
pub open spec fn start_edges(db: &UnitDb, unit: UnitId) -> Seq<JobConf> {
    confs_of(db.atom_dests(unit, UnitRelationAtom::UnitAtomPullInStart), JobKind::JobStart)
        + confs_of(
        db.atom_dests(unit, UnitRelationAtom::UnitAtomPullInStartIgnored),
        JobKind::JobStart,
    ) + confs_of(db.atom_dests(unit, UnitRelationAtom::UnitAtomPullInVerify), JobKind::JobVerify)
        + confs_of(db.atom_dests(unit, UnitRelationAtom::UnitAtomPullInStop), JobKind::JobStop)
        + confs_of(
        db.atom_dests(unit, UnitRelationAtom::UnitAtomPullInStopIgnored),
        JobKind::JobStop,
    )
}

/// The requests that the request `conf` implies directly.
///
/// A start pulls in what `start_edges` says. A stop is passed on to the units that
/// cannot stay up without this one. A reload is passed on to the units that reload
/// with this one. A restart pulls in what a start pulls in and is passed on where a
/// stop is passed on. A check and a no-op imply nothing; nor does any request in a
/// mode that leaves dependencies alone.
pub open spec fn expand_edges(db: &UnitDb, mode: JobMode, conf: JobConf) -> Seq<JobConf> {
    if mode_ignores_deps(mode) {
        Seq::empty()
    } else {
        match conf.kind {
            JobKind::JobStart => start_edges(db, conf.unit),
            JobKind::JobStop => confs_of(
                db.atom_dests(conf.unit, UnitRelationAtom::UnitAtomPropagateStop),
                JobKind::JobStop,
            ),
            JobKind::JobReload => confs_of(
                db.atom_dests(conf.unit, UnitRelationAtom::UnitAtomPropagatesReloadTo),
                JobKind::JobReload,
            ),
            JobKind::JobRestart => start_edges(db, conf.unit) + confs_of(
                db.atom_dests(conf.unit, UnitRelationAtom::UnitAtomPropagateStop),
                JobKind::JobRestart,
            ),
            JobKind::JobVerify | JobKind::JobNop => Seq::empty(),
        }
    }
}

/// Whether `path` leads from request to implied request without touching `avoid`.
pub open spec fn trans_path(
    db: &UnitDb,
    mode: JobMode,
    avoid: Set<JobConf>,
    path: Seq<JobConf>,
) -> bool {
    &&& path.len() > 0
    &&& forall|i: int| 0 <= i < path.len() ==> !avoid.contains(#[trigger] path[i])
    &&& forall|i: int, j: int|
        0 <= i && j == i + 1 && j < path.len() ==> expand_edges(db, mode, #[trigger] path[i]).contains(
            #[trigger] path[j],
        )
}

/// Whether the request `root` implies the request `target`, directly or through other
/// requests, none of them in `avoid`.
pub open spec fn trans_reach(
    db: &UnitDb,
    mode: JobMode,
    avoid: Set<JobConf>,
    root: JobConf,
    target: JobConf,
) -> bool {
    exists|path: Seq<JobConf>|
        #[trigger] trans_path(db, mode, avoid, path) && path[0] == root && path.last() == target
}

/// Everything that the request `root` implies, itself included, as far as it can be
/// reached without touching `avoid`.
pub open spec fn expand_confs(db: &UnitDb, mode: JobMode, avoid: Set<JobConf>, root: JobConf) -> Set<
    JobConf,
> {
    Set::new(|c: JobConf| trans_reach(db, mode, avoid, root, c))
}

/// Whether `now` is `before` with new jobs behind it: each of them queued, about to do
/// the first step of its request, and with the next identity after `first` that was
/// not given to a job before it.
pub open spec fn stage_grown(before: Seq<Job>, now: Seq<Job>, first: nat) -> bool {
    &&& before.len() <= now.len()
    &&& now.take(before.len() as int) == before
    &&& forall|k: int|
        before.len() <= k < now.len() ==> (#[trigger] now[k]).id == first + (k - before.len()) + 1
            && now[k] == Job::fresh(now[k].id, now[k].conf())
}

/// Among queued jobs, a request is in the set exactly if it is queued.
pub proof fn lemma_confs_suspend(s: Seq<Job>, c: JobConf)
    requires
        all_waiting(s),
    ensures
        confs(s).contains(c) <==> has_suspend(s, c.unit, c.kind),
{
    if confs(s).contains(c) {
        let i = choose|i: int| 0 <= i < s.len() && (#[trigger] s[i]).conf() == c;
        assert(s[i].unit == c.unit && s[i].kind == c.kind && s[i].is_waiting());
    }
    if has_suspend(s, c.unit, c.kind) {
        let i = choose|i: int|
            0 <= i < s.len() && (#[trigger] s[i]).unit == c.unit && s[i].kind == c.kind
                && s[i].is_waiting();
        assert(s[i].conf() == c);
    }
}

/// A job more in the table is a request more in the set.
pub proof fn lemma_confs_push(s: Seq<Job>, job: Job)
    ensures
        confs(s.push(job)) == confs(s).insert(job.conf()),
{
    let t = s.push(job);
    assert forall|c: JobConf| confs(t).contains(c) <==> confs(s).insert(job.conf()).contains(c) by {
        if confs(t).contains(c) {
            let i = choose|i: int| 0 <= i < t.len() && (#[trigger] t[i]).conf() == c;
            if i < s.len() {
                assert(s[i].conf() == c);
            }
        }
        if confs(s).contains(c) {
            let i = choose|i: int| 0 <= i < s.len() && (#[trigger] s[i]).conf() == c;
            assert(t[i].conf() == c);
        }
        if c == job.conf() {
            assert(t[s.len() as int].conf() == c);
        }
    }
    assert(confs(t) =~= confs(s).insert(job.conf()));
}

/// A request reaches itself, unless it is to be avoided.
pub proof fn lemma_reach_self(db: &UnitDb, mode: JobMode, avoid: Set<JobConf>, root: JobConf)
    requires
        !avoid.contains(root),
    ensures
        trans_reach(db, mode, avoid, root, root),
{
    let path = seq![root];
    assert(trans_path(db, mode, avoid, path));
    assert(path[0] == root && path.last() == root);
}

/// What a reached request implies directly is reached too, unless it is to be avoided.
pub proof fn lemma_reach_step(
    db: &UnitDb,
    mode: JobMode,
    avoid: Set<JobConf>,
    root: JobConf,
    via: JobConf,
    target: JobConf,
)
    requires
        trans_reach(db, mode, avoid, root, via),
        expand_edges(db, mode, via).contains(target),
        !avoid.contains(target),
    ensures
        trans_reach(db, mode, avoid, root, target),
{
    let path = choose|path: Seq<JobConf>|
        #[trigger] trans_path(db, mode, avoid, path) && path[0] == root && path.last() == via;
    let longer = path.push(target);
    assert forall|i: int| 0 <= i < longer.len() implies !avoid.contains(#[trigger] longer[i]) by {
        if i < path.len() {
            assert(longer[i] == path[i]);
        }
    }
    assert forall|i: int, j: int| 0 <= i && j == i + 1 && j < longer.len() implies expand_edges(
        db,
        mode,
        #[trigger] longer[i],
    ).contains(#[trigger] longer[j]) by {
        if j < path.len() {
            assert(longer[i] == path[i] && longer[j] == path[j]);
        } else {
            assert(longer[i] == via && longer[j] == target);
        }
    }
    assert(trans_path(db, mode, avoid, longer));
    assert(longer[0] == root && longer.last() == target);
}

proof fn lemma_path_seen(
    db: &UnitDb,
    mode: JobMode,
    avoid: Set<JobConf>,
    seen: Set<JobConf>,
    path: Seq<JobConf>,
    i: int,
)
    requires
        trans_path(db, mode, avoid, path),
        seen.contains(path[0]),
        forall|c: JobConf, d: JobConf|
            seen.contains(c) && !avoid.contains(c) && #[trigger] expand_edges(db, mode, c).contains(
                d,
            ) ==> seen.contains(d),
        0 <= i < path.len(),
    ensures
        seen.contains(path[i]),
    decreases i,
{
    if i > 0 {
        lemma_path_seen(db, mode, avoid, seen, path, i - 1);
        assert(!avoid.contains(path[i - 1]));
        assert(expand_edges(db, mode, path[i - 1]).contains(path[i]));
    }
}

/// A set that holds the root, and with each request outside `avoid` what the request
/// implies directly, holds everything that the root reaches.
pub proof fn lemma_reach_closed(
    db: &UnitDb,
    mode: JobMode,
    avoid: Set<JobConf>,
    root: JobConf,
    seen: Set<JobConf>,
)
    requires
        seen.contains(root),
        forall|c: JobConf, d: JobConf|
            seen.contains(c) && !avoid.contains(c) && #[trigger] expand_edges(db, mode, c).contains(
                d,
            ) ==> seen.contains(d),
    ensures
        forall|c: JobConf| trans_reach(db, mode, avoid, root, c) ==> seen.contains(c),
{
    assert forall|c: JobConf| trans_reach(db, mode, avoid, root, c) implies seen.contains(c) by {
        let path = choose|path: Seq<JobConf>|
            #[trigger] trans_path(db, mode, avoid, path) && path[0] == root && path.last() == c;
        lemma_path_seen(db, mode, avoid, seen, path, path.len() - 1);
    }
}

fn push_confs(
    out: &mut Vec<JobConf>,
    db: &UnitDb,
    unit: UnitId,
    atom: UnitRelationAtom,
    kind: JobKind,
)
    ensures
        final(out)@ == old(out)@ + confs_of(db.atom_dests(unit, atom), kind),
{
    let dests = db.dep_gets_atom(unit, atom);
    let ghost before = out@;
    let ghost make = conf_for(kind);
    let mut i: usize = 0;
    proof {
        assert(dests@.take(0).map_values(make) =~= Seq::<JobConf>::empty());
        assert(out@ =~= before + dests@.take(0).map_values(make));
    }
    while i < dests.len()
        invariant
            i <= dests.len(),
            make == conf_for(kind),
            out@ == before + dests@.take(i as int).map_values(make),
        decreases dests.len() - i,
    {
        proof {
            lemma_map_values_push(dests@.take(i as int), make, dests@[i as int]);
            assert(dests@.take(i + 1) =~= dests@.take(i as int).push(dests@[i as int]));
            assert((before + dests@.take(i as int).map_values(make)).push(make(dests@[i as int]))
                =~= before + dests@.take(i as int).map_values(make).push(make(dests@[i as int])));
        }
        out.push(JobConf { unit: dests[i], kind });
        i = i + 1;
    }
    proof {
        assert(dests@.take(i as int) =~= dests@);
    }
}

/// The requests that the request `conf` implies directly.
pub fn job_trans_edges(db: &UnitDb, mode: JobMode, conf: &JobConf) -> (edges: Vec<JobConf>)
    ensures
        edges@ == expand_edges(db, mode, *conf),
{
    let mut edges: Vec<JobConf> = Vec::new();
    if mode == JobMode::JobIgnoreDependencies || mode == JobMode::JobIgnoreRequirements {
        return edges;
    }
    let unit = conf.unit;
    match conf.kind {
        JobKind::JobStart | JobKind::JobRestart => {
            push_confs(
                &mut edges,
                db,
                unit,
                UnitRelationAtom::UnitAtomPullInStart,
                JobKind::JobStart,
            );
            push_confs(
                &mut edges,
                db,
                unit,
                UnitRelationAtom::UnitAtomPullInStartIgnored,
                JobKind::JobStart,
            );
            push_confs(
                &mut edges,
                db,
                unit,
                UnitRelationAtom::UnitAtomPullInVerify,
                JobKind::JobVerify,
            );
            push_confs(&mut edges, db, unit, UnitRelationAtom::UnitAtomPullInStop, JobKind::JobStop);
            push_confs(
                &mut edges,
                db,
                unit,
                UnitRelationAtom::UnitAtomPullInStopIgnored,
                JobKind::JobStop,
            );
            proof {
                assert(edges@ =~= start_edges(db, unit));
            }
            if conf.kind == JobKind::JobRestart {
                push_confs(
                    &mut edges,
                    db,
                    unit,
                    UnitRelationAtom::UnitAtomPropagateStop,
                    JobKind::JobRestart,
                );
            }
        },
        JobKind::JobStop => {
            push_confs(
                &mut edges,
                db,
                unit,
                UnitRelationAtom::UnitAtomPropagateStop,
                JobKind::JobStop,
            );
            proof {
                assert(edges@ =~= expand_edges(db, mode, *conf));
            }
        },
        JobKind::JobReload => {
            push_confs(
                &mut edges,
                db,
                unit,
                UnitRelationAtom::UnitAtomPropagatesReloadTo,
                JobKind::JobReload,
            );
            proof {
                assert(edges@ =~= expand_edges(db, mode, *conf));
            }
        },
        JobKind::JobVerify | JobKind::JobNop => {},
    }
    edges
}

/// The requests that are staged, in their order, when the requests on `stack` are
/// taken up one after the other, the last one first, `staged` being staged already and
/// `fuel` identities being left.
///
/// A request that is staged already is passed over. Any other request is staged,
/// which takes an identity, and what it implies directly is taken up next, in the
/// order in which it is implied. When a request is to be staged and no identity is
/// left, nothing more is staged.
#[verifier::opaque]
pub open spec fn expand_order(
    db: &UnitDb,
    mode: JobMode,
    stack: Seq<JobConf>,
    staged: Seq<JobConf>,
    fuel: nat,
) -> Seq<JobConf>
    decreases fuel, stack.len(),
{
    if stack.len() == 0 {
        staged
    } else {
        let conf = stack.last();
        if staged.contains(conf) {
            expand_order(db, mode, stack.drop_last(), staged, fuel)
        } else if fuel == 0 {
            staged
        } else {
            expand_order(
                db,
                mode,
                stack.drop_last() + expand_edges(db, mode, conf).reverse(),
                staged.push(conf),
                (fuel - 1) as nat,
            )
        }
    }
}

/// What `expand_order` comes to, step by step.
pub proof fn lemma_expand_order_unfold(
    db: &UnitDb,
    mode: JobMode,
    stack: Seq<JobConf>,
    staged: Seq<JobConf>,
    fuel: nat,
)
    ensures
        expand_order(db, mode, stack, staged, fuel) == if stack.len() == 0 {
            staged
        } else if staged.contains(stack.last()) {
            expand_order(db, mode, stack.drop_last(), staged, fuel)
        } else if fuel == 0 {
            staged
        } else {
            expand_order(
                db,
                mode,
                stack.drop_last() + expand_edges(db, mode, stack.last()).reverse(),
                staged.push(stack.last()),
                (fuel - 1) as nat,
            )
        },
{
    reveal(expand_order);
}

fn push_all_rev(stack: &mut Vec<JobConf>, items: &Vec<JobConf>)
    ensures
        final(stack)@ == old(stack)@ + items@.reverse(),
        final(stack)@.len() == old(stack)@.len() + items@.len(),
        forall|k: int|
            0 <= k < final(stack)@.len() ==> old(stack)@.contains(#[trigger] final(stack)@[k])
                || items@.contains(final(stack)@[k]),
        forall|c: JobConf| #[trigger] old(stack)@.contains(c) ==> final(stack)@.contains(c),
        forall|c: JobConf| #[trigger] items@.contains(c) ==> final(stack)@.contains(c),
{
    let ghost before = stack@;
    let mut i: usize = items.len();
    proof {
        assert(stack@ =~= before + items@.skip(i as int).reverse());
    }
    while i > 0
        invariant
            i <= items.len(),
            stack@.len() == before.len() + (items@.len() - i),
            stack@ == before + items@.skip(i as int).reverse(),
            forall|k: int| 0 <= k < before.len() ==> stack@[k] == before[k],
            forall|k: int|
                before.len() <= k < stack@.len() ==> items@.contains(#[trigger] stack@[k]),
            forall|m: int| i <= m < items@.len() ==> stack@.contains(#[trigger] items@[m]),
        decreases i,
    {
        i = i - 1;
        let ghost prev = stack@;
        stack.push(items[i]);
        proof {
            assert(stack@[prev.len() as int] == items@[i as int]);
            assert(stack@ =~= before + items@.skip(i as int).reverse()) by {
                let longer = items@.skip(i as int).reverse();
                let shorter = items@.skip(i + 1).reverse();
                assert(longer.len() == shorter.len() + 1);
                assert forall|k: int| 0 <= k < shorter.len() implies longer[k] == shorter[k] by {}
                assert(longer[shorter.len() as int] == items@[i as int]);
            }
            assert forall|m: int| i <= m < items@.len() implies stack@.contains(
                #[trigger] items@[m],
            ) by {
                if m > i {
                    let k = choose|k: int| 0 <= k < prev.len() && prev[k] == items@[m];
                    assert(stack@[k] == items@[m]);
                }
            }
        }
    }
    proof {
        assert(items@.skip(0) =~= items@);
        assert forall|k: int| 0 <= k < stack@.len() implies before.contains(#[trigger] stack@[k])
            || items@.contains(stack@[k]) by {
            if k < before.len() {
                assert(before[k] == stack@[k]);
            }
        }
        assert forall|c: JobConf| #[trigger] before.contains(c) implies stack@.contains(c) by {
            let k = choose|k: int| 0 <= k < before.len() && before[k] == c;
            assert(stack@[k] == c);
        }
        assert forall|c: JobConf| #[trigger] items@.contains(c) implies stack@.contains(c) by {
            let m = choose|m: int| 0 <= m < items@.len() && items@[m] == c;
            assert(stack@.contains(items@[m]));
        }
    }
}

/// Expands the request `config` on the stage: queues a job for it and for everything
/// that it implies, each request once. Requests that are on the stage already are not
/// followed further.
///
/// The stage only grows, and every new job has a fresh identity. The expansion fails
/// when the identities run out before it is complete; what it queued until then stays
/// on the stage, for the caller to clear.
pub fn job_trans_expand(
    stage: &mut JobTable,
    ja: &mut JobAlloc,
    db: &UnitDb,
    config: &JobConf,
    mode: JobMode,
) -> (res: Result<(), JobErrno>)
    requires
        old(stage).wf(),
        all_waiting(old(stage)@),
        ids_below(old(stage)@, old(ja).last()),
    ensures
        final(stage).wf(),
        all_waiting(final(stage)@),
        ids_below(final(stage)@, final(ja).last()),
        old(ja).last() <= final(ja).last(),
        stage_grown(old(stage)@, final(stage)@, old(ja).last()),
        final(stage)@.len() - old(stage)@.len() == final(ja).last() - old(ja).last(),
        conf_seq(final(stage)@) == expand_order(
            db,
            mode,
            seq![*config],
            conf_seq(old(stage)@),
            (u32::MAX - old(ja).last()) as nat,
        ),
        forall|c: JobConf|
            confs(final(stage)@).contains(c) ==> confs(old(stage)@).contains(c) || expand_confs(
                db,
                mode,
                confs(old(stage)@),
                *config,
            ).contains(c),
        match res {
            Ok(_) => confs(final(stage)@) == confs(old(stage)@) + expand_confs(
                db,
                mode,
                confs(old(stage)@),
                *config,
            ),
            Err(e) => e == JobErrno::JobErrInternel && final(ja).last() == u32::MAX && exists|
                c: JobConf,
            |
                #[trigger] expand_confs(db, mode, confs(old(stage)@), *config).contains(c) && !confs(
                    final(stage)@,
                ).contains(c),
        },
{
    let ghost before = stage@;
    let ghost avoid = confs(before);
    let ghost first = ja.last();
    let mut stack: Vec<JobConf> = Vec::new();
    stack.push(*config);
    proof {
        ja.lemma_last_bound();
        assert(stack@ =~= seq![*config]);
        assert(stack@[0] == *config);
        assert(before.take(before.len() as int) =~= before);
        if !avoid.contains(*config) {
            lemma_reach_self(db, mode, avoid, *config);
        }
    }
    while stack.len() > 0
        invariant
            stage.wf(),
            all_waiting(stage@),
            ids_below(stage@, ja.last()),
            first <= ja.last(),
            first == old(ja).last(),
            before == old(stage)@,
            stage_grown(before, stage@, first),
            stage@.len() - before.len() == ja.last() - first,
            ja.last() <= u32::MAX,
            expand_order(
                db,
                mode,
                stack@,
                conf_seq(stage@),
                (u32::MAX - ja.last()) as nat,
            ) == expand_order(
                db,
                mode,
                seq![*config],
                conf_seq(before),
                (u32::MAX - first) as nat,
            ),
            avoid == confs(before),
            forall|c: JobConf| avoid.contains(c) ==> confs(stage@).contains(c),
            forall|c: JobConf|
                confs(stage@).contains(c) ==> avoid.contains(c) || trans_reach(
                    db,
                    mode,
                    avoid,
                    *config,
                    c,
                ),
            forall|k: int|
                0 <= k < stack@.len() ==> avoid.contains(#[trigger] stack@[k]) || trans_reach(
                    db,
                    mode,
                    avoid,
                    *config,
                    stack@[k],
                ),
            confs(stage@).contains(*config) || stack@.contains(*config),
            forall|c: JobConf, d: JobConf|
                confs(stage@).contains(c) && !avoid.contains(c) && #[trigger] expand_edges(
                    db,
                    mode,
                    c,
                ).contains(d) ==> confs(stage@).contains(d) || stack@.contains(d),
        decreases u32::MAX - ja.last(), stack.len(),
    {
        let ghost stack0 = stack@;
        let ghost stage0 = stage@;
        let conf = stack.pop().unwrap();
        proof {
            assert(stack0[stack0.len() - 1] == conf);
            assert forall|c: JobConf| stack0.contains(c) implies stack@.contains(c) || c == conf by {
                let k = choose|k: int| 0 <= k < stack0.len() && stack0[k] == c;
                if k < stack@.len() {
                    assert(stack@[k] == c);
                }
            }
            assert(forall|k: int| 0 <= k < stack@.len() ==> stack@[k] == stack0[k]);
            lemma_confs_suspend(stage0, conf);
            lemma_conf_seq_contains(stage0, conf);
            assert(stack@ =~= stack0.drop_last());
            lemma_expand_order_unfold(
                db,
                mode,
                stack0,
                conf_seq(stage0),
                (u32::MAX - ja.last()) as nat,
            );
        }
        match stage.record_suspend(ja, &conf) {
            Err(e) => {
                proof {
                    assert(!confs(stage@).contains(conf));
                    assert(!avoid.contains(conf));
                    assert(trans_reach(db, mode, avoid, *config, conf));
                    assert(expand_confs(db, mode, avoid, *config).contains(conf));
                }
                return Err(e);
            },
            Ok(created) => {
                if created {
                    let ghost job = Job::fresh(ja.last() as u32, conf);
                    proof {
                        assert(stage@ == stage0.push(job));
                        lemma_confs_push(stage0, job);
                        lemma_conf_seq_push(stage0, job);
                        assert(job.conf() == conf);
                        assert(!avoid.contains(conf));
                        assert(trans_reach(db, mode, avoid, *config, conf));
                        assert(stage@.take(before.len() as int) =~= stage0.take(
                            before.len() as int,
                        ));
                    }
                    let edges = job_trans_edges(db, mode, &conf);
                    let ghost stack1 = stack@;
                    push_all_rev(&mut stack, &edges);
                    proof {
                        if !confs(stage0).contains(*config) && *config != conf {
                            assert(stack0.contains(*config));
                            assert(stack1.contains(*config));
                            assert(stack@.contains(*config));
                        }
                        assert forall|k: int| 0 <= k < stack@.len() implies avoid.contains(
                            #[trigger] stack@[k],
                        ) || trans_reach(db, mode, avoid, *config, stack@[k]) by {
                            let d = stack@[k];
                            if stack1.contains(d) {
                                let m = choose|m: int| 0 <= m < stack1.len() && stack1[m] == d;
                                assert(stack0[m] == d);
                            } else {
                                assert(edges@.contains(d));
                                if !avoid.contains(d) {
                                    lemma_reach_step(db, mode, avoid, *config, conf, d);
                                }
                            }
                        }
                        assert forall|c: JobConf, d: JobConf|
                            confs(stage@).contains(c) && !avoid.contains(c)
                                && #[trigger] expand_edges(db, mode, c).contains(
                                d,
                            ) implies confs(stage@).contains(d) || stack@.contains(d) by {
                            if c == conf {
                                assert(edges@.contains(d));
                                assert(stack@.contains(d));
                            } else {
                                assert(confs(stage0).contains(c));
                                assert(confs(stage0).contains(d) || stack0.contains(d));
                                if confs(stage0).contains(d) {
                                    assert(confs(stage@).contains(d));
                                } else if d == conf {
                                    assert(confs(stage@).contains(d));
                                } else {
                                    assert(stack1.contains(d));
                                    assert(stack@.contains(d));
                                }
                            }
                        }
                    }
                } else {
                    proof {
                        assert(confs(stage@).contains(conf));
                        if !confs(stage0).contains(*config) {
                            assert(stack0.contains(*config));
                        }
                    }
                }
            },
        }
    }
    proof {
        lemma_expand_order_unfold(db, mode, stack@, conf_seq(stage@), (u32::MAX - ja.last()) as nat);
        let seen = confs(stage@);
        assert(stack@.len() == 0);
        assert(!stack@.contains(*config));
        assert forall|c: JobConf, d: JobConf|
            seen.contains(c) && !avoid.contains(c) && #[trigger] expand_edges(db, mode, c).contains(
                d,
            ) implies seen.contains(d) by {
            assert(!stack@.contains(d));
        }
        lemma_reach_closed(db, mode, avoid, *config, seen);
        assert(seen =~= avoid + expand_confs(db, mode, avoid, *config));
    }
    Ok(())
}

/// The test that a request passes which asks for `kind` on one of `units`.
pub open spec fn conf_among(units: Seq<UnitId>, kind: JobKind) -> spec_fn(JobConf) -> bool {
    |c: JobConf| c.kind == kind && units.contains(c.unit)
}

/// The requests that are staged, in their order, when the operation `kind` is asked
/// of each of `units` in turn, `staged` being staged already and `fuel` identities
/// being left. A request that is staged already is passed over; when a request is to
/// be staged and no identity is left, nothing more is staged.
#[verifier::opaque]
pub open spec fn record_order(units: Seq<UnitId>, kind: JobKind, staged: Seq<JobConf>, fuel: nat) -> Seq<
    JobConf,
>
    decreases units.len(),
{
    if units.len() == 0 {
        staged
    } else {
        let conf = conf_at(units[0], kind);
        if staged.contains(conf) {
            record_order(units.drop_first(), kind, staged, fuel)
        } else if fuel == 0 {
            staged
        } else {
            record_order(units.drop_first(), kind, staged.push(conf), (fuel - 1) as nat)
        }
    }
}

/// What `record_order` comes to, step by step.
pub proof fn lemma_record_order_unfold(
    units: Seq<UnitId>,
    kind: JobKind,
    staged: Seq<JobConf>,
    fuel: nat,
)
    ensures
        record_order(units, kind, staged, fuel) == if units.len() == 0 {
            staged
        } else if staged.contains(conf_at(units[0], kind)) {
            record_order(units.drop_first(), kind, staged, fuel)
        } else if fuel == 0 {
            staged
        } else {
            record_order(
                units.drop_first(),
                kind,
                staged.push(conf_at(units[0], kind)),
                (fuel - 1) as nat,
            )
        },
{
    reveal(record_order);
}

fn record_all(stage: &mut JobTable, ja: &mut JobAlloc, units: &Vec<UnitId>, kind: JobKind) -> (res:
    Result<(), JobErrno>)
    requires
        old(stage).wf(),
        all_waiting(old(stage)@),
        ids_below(old(stage)@, old(ja).last()),
    ensures
        final(stage).wf(),
        all_waiting(final(stage)@),
        ids_below(final(stage)@, final(ja).last()),
        old(ja).last() <= final(ja).last(),
        stage_grown(old(stage)@, final(stage)@, old(ja).last()),
        final(stage)@.len() - old(stage)@.len() == final(ja).last() - old(ja).last(),
        conf_seq(final(stage)@) == record_order(
            units@,
            kind,
            conf_seq(old(stage)@),
            (u32::MAX - old(ja).last()) as nat,
        ),
        forall|c: JobConf| confs(old(stage)@).contains(c) ==> confs(final(stage)@).contains(c),
        forall|c: JobConf|
            confs(final(stage)@).contains(c) ==> confs(old(stage)@).contains(c) || conf_among(
                units@,
                kind,
            )(c),
        match res {
            Ok(_) => forall|c: JobConf|
                conf_among(units@, kind)(c) ==> confs(final(stage)@).contains(c),
            Err(e) => e == JobErrno::JobErrInternel && final(ja).last() == u32::MAX && exists|
                c: JobConf,
            |
                #[trigger] conf_among(units@, kind)(c) && !confs(final(stage)@).contains(c),
        },
{
    let ghost before = stage@;
    let ghost first = ja.last();
    let mut i: usize = 0;
    proof {
        ja.lemma_last_bound();
        assert(before.take(before.len() as int) =~= before);
        assert(units@.skip(0) =~= units@);
    }
    while i < units.len()
        invariant
            i <= units.len(),
            stage.wf(),
            all_waiting(stage@),
            ids_below(stage@, ja.last()),
            first <= ja.last(),
            first == old(ja).last(),
            before == old(stage)@,
            stage_grown(before, stage@, first),
            stage@.len() - before.len() == ja.last() - first,
            ja.last() <= u32::MAX,
            record_order(
                units@.skip(i as int),
                kind,
                conf_seq(stage@),
                (u32::MAX - ja.last()) as nat,
            ) == record_order(units@, kind, conf_seq(before), (u32::MAX - first) as nat),
            forall|c: JobConf| confs(before).contains(c) ==> confs(stage@).contains(c),
            forall|c: JobConf|
                confs(stage@).contains(c) ==> confs(before).contains(c) || conf_among(
                    units@,
                    kind,
                )(c),
            forall|k: int|
                0 <= k < i ==> confs(stage@).contains(
                    (JobConf { unit: #[trigger] units@[k], kind }),
                ),
        decreases units.len() - i,
    {
        let conf = JobConf { unit: units[i], kind };
        let ghost stage0 = stage@;
        proof {
            lemma_confs_suspend(stage0, conf);
            lemma_conf_seq_contains(stage0, conf);
            assert(units@.contains(units@[i as int]));
            assert(conf_among(units@, kind)(conf));
            assert(units@.skip(i as int)[0] == units@[i as int]);
            assert(units@.skip(i as int).drop_first() =~= units@.skip(i + 1));
            lemma_record_order_unfold(
                units@.skip(i as int),
                kind,
                conf_seq(stage0),
                (u32::MAX - ja.last()) as nat,
            );
        }
        match stage.record_suspend(ja, &conf) {
            Err(e) => {
                return Err(e);
            },
            Ok(created) => {
                proof {
                    if created {
                        let job = Job::fresh(ja.last() as u32, conf);
                        lemma_confs_push(stage0, job);
                        lemma_conf_seq_push(stage0, job);
                        assert(stage@.take(before.len() as int) =~= stage0.take(
                            before.len() as int,
                        ));
                    }
                    assert(confs(stage@).contains(conf));
                }
            },
        }
        i = i + 1;
    }
    proof {
        lemma_record_order_unfold(
            units@.skip(i as int),
            kind,
            conf_seq(stage@),
            (u32::MAX - ja.last()) as nat,
        );
        assert forall|c: JobConf| conf_among(units@, kind)(c) implies confs(stage@).contains(c) by {
            let k = choose|k: int| 0 <= k < units@.len() && units@[k] == c.unit;
            assert(confs(stage@).contains((JobConf { unit: units@[k], kind })));
        }
    }
    Ok(())
}

/// The request for `kind` on `unit`.
pub open spec fn conf_at(unit: UnitId, kind: JobKind) -> JobConf {
    JobConf { unit, kind }
}

/// Whether a request among `staged` is for `unit`.
pub open spec fn unit_in(staged: Set<JobConf>, unit: UnitId) -> bool {
    exists|kind: JobKind| staged.contains(#[trigger] conf_at(unit, kind))
}

/// A unit has a job in a table exactly if a request of the table is for it.
pub proof fn lemma_unit_in(s: Seq<Job>, unit: UnitId)
    ensures
        has_unit(s, unit) <==> unit_in(confs(s), unit),
{
    if has_unit(s, unit) {
        let i = choose|i: int| 0 <= i < s.len() && (#[trigger] s[i]).unit == unit;
        assert(s[i].conf() == conf_at(unit, s[i].kind));
        assert(confs(s).contains(conf_at(unit, s[i].kind)));
    }
    if unit_in(confs(s), unit) {
        let kind = choose|kind: JobKind| confs(s).contains(#[trigger] conf_at(unit, kind));
        let i = choose|i: int| 0 <= i < s.len() && (#[trigger] s[i]).conf() == conf_at(unit, kind);
        assert(s[i].unit == unit);
    }
}

/// The requests that the mode of a transaction adds to the requests `staged`: an
/// isolating transaction stops every unit of the store for which nothing is staged,
/// and a triggering one stops the units by which the unit of the request is triggered.
pub open spec fn affect_confs(db: &UnitDb, staged: Set<JobConf>, config: JobConf, mode: JobMode) -> Set<
    JobConf,
> {
    match mode {
        JobMode::JobIsolate => Set::new(
            |c: JobConf|
                c.kind == JobKind::JobStop && db.contains_unit(c.unit) && !unit_in(staged, c.unit),
        ),
        JobMode::JobTrigger => Set::new(
            |c: JobConf|
                c.kind == JobKind::JobStop && db.has_atom(
                    config.unit,
                    UnitRelationAtom::UnitAtomTriggeredBy,
                    c.unit,
                ),
        ),
        _ => Set::empty(),
    }
}

/// The test that a unit passes for which no request among `staged` is.
pub open spec fn not_staged(staged: Set<JobConf>) -> spec_fn(UnitId) -> bool {
    |unit: UnitId| !unit_in(staged, unit)
}

/// The units of the store, in the order of their handles.
pub open spec fn all_units(db: &UnitDb) -> Seq<UnitId> {
    Seq::new(db.units().len(), |i: int| i as usize)
}

/// The units that the mode of a transaction has stopped, in the order in which their
/// stops are staged: see `affect_confs`.
pub open spec fn affect_units(db: &UnitDb, staged: Set<JobConf>, config: JobConf, mode: JobMode) -> Seq<
    UnitId,
> {
    match mode {
        JobMode::JobIsolate => all_units(db).filter(not_staged(staged)),
        JobMode::JobTrigger => db.atom_dests(config.unit, UnitRelationAtom::UnitAtomTriggeredBy),
        _ => Seq::empty(),
    }
}

/// The requests that are staged, in their order, once the mode of the transaction
/// has added its requests to the requests `staged`, `fuel` identities being left.
pub open spec fn affect_order(
    db: &UnitDb,
    staged: Seq<JobConf>,
    config: JobConf,
    mode: JobMode,
    fuel: nat,
) -> Seq<JobConf> {
    record_order(
        affect_units(db, staged.to_set(), config, mode),
        JobKind::JobStop,
        staged,
        fuel,
    )
}

/// The requests of a table, listed or not, are the same.
pub proof fn lemma_conf_seq_set(s: Seq<Job>)
    ensures
        conf_seq(s).to_set() == confs(s),
{
    assert forall|c: JobConf| conf_seq(s).to_set().contains(c) <==> confs(s).contains(c) by {
        if conf_seq(s).to_set().contains(c) {
            let i = choose|i: int| 0 <= i < conf_seq(s).len() && conf_seq(s)[i] == c;
            assert(s[i].conf() == c);
        }
        if confs(s).contains(c) {
            let i = choose|i: int| 0 <= i < s.len() && (#[trigger] s[i]).conf() == c;
            assert(conf_seq(s)[i] == c);
        }
    }
    assert(conf_seq(s).to_set() =~= confs(s));
}

/// Queues on the stage the jobs that the mode of the transaction asks for beside
/// those that the request implies; see `affect_confs`.
///
/// The stage only grows, and every new job has a fresh identity. Fails when the
/// identities run out before all jobs are queued.
pub fn job_trans_affect(
    stage: &mut JobTable,
    ja: &mut JobAlloc,
    db: &UnitDb,
    config: &JobConf,
    mode: JobMode,
) -> (res: Result<(), JobErrno>)
    requires
        old(stage).wf(),
        all_waiting(old(stage)@),
        ids_below(old(stage)@, old(ja).last()),
    ensures
        final(stage).wf(),
        all_waiting(final(stage)@),
        ids_below(final(stage)@, final(ja).last()),
        old(ja).last() <= final(ja).last(),
        stage_grown(old(stage)@, final(stage)@, old(ja).last()),
        final(stage)@.len() - old(stage)@.len() == final(ja).last() - old(ja).last(),
        conf_seq(final(stage)@) == affect_order(
            db,
            conf_seq(old(stage)@),
            *config,
            mode,
            (u32::MAX - old(ja).last()) as nat,
        ),
        forall|c: JobConf|
            confs(final(stage)@).contains(c) ==> confs(old(stage)@).contains(c) || affect_confs(
                db,
                confs(old(stage)@),
                *config,
                mode,
            ).contains(c),
        match res {
            Ok(_) => confs(final(stage)@) == confs(old(stage)@) + affect_confs(
                db,
                confs(old(stage)@),
                *config,
                mode,
            ),
            Err(e) => e == JobErrno::JobErrInternel && final(ja).last() == u32::MAX && exists|
                c: JobConf,
            |
                #[trigger] affect_confs(db, confs(old(stage)@), *config, mode).contains(c) && !confs(
                    final(stage)@,
                ).contains(c),
        },
{
    let ghost before = stage@;
    let ghost more = affect_confs(db, confs(before), *config, mode);
    let ghost wanted = affect_units(db, confs(before), *config, mode);
    let mut units: Vec<UnitId> = Vec::new();
    proof {
        lemma_conf_seq_set(before);
    }
    match mode {
        JobMode::JobIsolate => {
            let n = db.units_len();
            let mut v: usize = 0;
            proof {
                assert(all_units(db).take(0).filter(not_staged(confs(before))) =~= Seq::<
                    UnitId,
                >::empty()) by {
                    reveal(Seq::filter);
                }
            }
            while v < n
                invariant
                    v <= n,
                    n == db.units().len(),
                    stage@ == before,
                    units@ == all_units(db).take(v as int).filter(not_staged(confs(before))),
                    forall|u: UnitId|
                        #![trigger units@.contains(u)]
                        units@.contains(u) <==> (u < v && !has_unit(before, u)),
                decreases n - v,
            {
                let ghost prev = units@;
                proof {
                    crate::seq_util::lemma_filter_take_next(
                        all_units(db),
                        not_staged(confs(before)),
                        v as int,
                    );
                    lemma_unit_in(before, v);
                }
                if !stage.has_unit_job(v) {
                    units.push(v);
                    proof {
                        assert(units@[prev.len() as int] == v);
                    }
                }
                proof {
                    assert forall|u: UnitId| #![trigger units@.contains(u)]
                        units@.contains(u) <==> (u < v + 1 && !has_unit(before, u)) by {
                        assert(prev.contains(u) <==> u < v && !has_unit(before, u));
                        if units@.contains(u) {
                            let k = choose|k: int| 0 <= k < units@.len() && units@[k] == u;
                            if k < prev.len() {
                                assert(prev[k] == u);
                                assert(prev.contains(u));
                            }
                        }
                        if prev.contains(u) {
                            let k = choose|k: int| 0 <= k < prev.len() && prev[k] == u;
                            assert(units@[k] == u);
                        }
                        if u == v && !has_unit(before, u) {
                            assert(units@[prev.len() as int] == u);
                        }
                    }
                }
                v = v + 1;
            }
            proof {
                assert(all_units(db).take(v as int) =~= all_units(db));
                assert(units@ == wanted);
                assert forall|c: JobConf| conf_among(units@, JobKind::JobStop)(c) <==> more.contains(
                    c,
                ) by {
                    assert(units@.contains(c.unit) <==> c.unit < n && !has_unit(before, c.unit));
                    lemma_unit_in(before, c.unit);
                }
            }
        },
        JobMode::JobTrigger => {
            units = db.dep_gets_atom(config.unit, UnitRelationAtom::UnitAtomTriggeredBy);
            proof {
                assert forall|c: JobConf| conf_among(units@, JobKind::JobStop)(c) <==> more.contains(
                    c,
                ) by {}
            }
        },
        _ => {
            proof {
                assert(before.take(before.len() as int) =~= before);
                assert(confs(before) =~= confs(before) + more);
                lemma_record_order_unfold(
                    wanted,
                    JobKind::JobStop,
                    conf_seq(before),
                    (u32::MAX - ja.last()) as nat,
                );
            }
            return Ok(());
        },
    }
    proof {
        assert(units@ == wanted);
    }
    let res = record_all(stage, ja, &units, JobKind::JobStop);
    proof {
        assert forall|c: JobConf| conf_among(units@, JobKind::JobStop)(c) <==> more.contains(c) by {}
        match res {
            Ok(_) => {
                assert(confs(stage@) =~= confs(before) + more);
            },
            Err(_) => {
                let c = choose|c: JobConf|
                    #[trigger] conf_among(units@, JobKind::JobStop)(c) && !confs(stage@).contains(c);
                assert(more.contains(c));
            },
        }
    }
    res
}

/// Checks the stage against itself and against the jobs that are there already: the
/// transaction is rejected if two of its jobs contradict each other, or if it is in
/// `JobFail` mode and one of its jobs contradicts a job that is queued or under way.
pub fn job_trans_verify(stage: &JobTable, jobs: &JobTable, mode: JobMode) -> (res: Result<
    (),
    JobErrno,
>)
    ensures
        res.is_ok() <==> stage_accepted(stage@, jobs@, mode),
        res.is_err() ==> res == Err::<(), JobErrno>(JobErrno::JobErrInput),
{
    if stage.is_suspends_conflict() {
        return Err(JobErrno::JobErrInput);
    }
    if mode == JobMode::JobFail && stage.is_suspends_conflict_with(jobs) {
        return Err(JobErrno::JobErrInput);
    }
    Ok(())
}

/// Whose queued jobs fall with a failed job that was doing `run_kind`, and which of
/// them: a failed start (or check) takes the queued starts and checks of the units
/// that cannot start without the failed one, a failed stop the queued stops of the
/// units that made it stop. Nothing hangs on any other failure.
pub open spec fn fallback_rule(run_kind: JobKind) -> Option<
    (UnitRelationAtom, JobKind, Option<JobKind>),
> {
    match run_kind {
        JobKind::JobStart | JobKind::JobVerify => Some(
            (
                UnitRelationAtom::UnitAtomPropagateStartFailure,
                JobKind::JobStart,
                Some(JobKind::JobVerify),
            ),
        ),
        JobKind::JobStop => Some(
            (UnitRelationAtom::UnitAtomPropagateStopFailure, JobKind::JobStop, None),
        ),
        _ => None,
    }
}

/// The test that a job passes which falls with the failed job of `unit`.
pub open spec fn fallback_hit(db: &UnitDb, unit: UnitId, run_kind: JobKind) -> spec_fn(Job) -> bool {
    |j: Job|
        match fallback_rule(run_kind) {
            Some((atom, kind1, kind2)) => j.is_waiting() && db.has_atom(unit, atom, j.unit) && (
            j.kind == kind1 || kind2 == Some(j.kind)),
            None => false,
        }
}

/// The test that a job passes which outlives the failed job of `unit`.
pub open spec fn fallback_kept(db: &UnitDb, unit: UnitId, run_kind: JobKind) -> spec_fn(
    Job,
) -> bool {
    |j: Job| !fallback_hit(db, unit, run_kind)(j)
}

/// The test that a job passes which is queued for one of `units` to do `kind1`, or to
/// do the operation in `kind2`.
pub open spec fn hit_among(units: Seq<UnitId>, kind1: JobKind, kind2: Option<JobKind>) -> spec_fn(
    Job,
) -> bool {
    |j: Job| j.is_waiting() && units.contains(j.unit) && (j.kind == kind1 || kind2 == Some(j.kind))
}

/// The test that a job passes which `hit_among` turns away.
pub open spec fn kept_among(units: Seq<UnitId>, kind1: JobKind, kind2: Option<JobKind>) -> spec_fn(
    Job,
) -> bool {
    |j: Job| !hit_among(units, kind1, kind2)(j)
}

/// Cancels the queued jobs that hang on the job of `unit` which failed while doing
/// `run_kind`, and hands them back. Only the units next to the failed one are looked
/// at: what hangs on the cancelled jobs in turn stays queued.
pub fn job_trans_fallback(jobs: &mut JobTable, db: &UnitDb, unit: UnitId, run_kind: JobKind) -> (gone:
    Vec<Job>)
    requires
        old(jobs).wf(),
    ensures
        final(jobs).wf(),
        final(jobs)@ == old(jobs)@.filter(fallback_kept(db, unit, run_kind)),
        forall|j: Job|
            #![trigger gone@.contains(j)]
            gone@.contains(j) <==> (old(jobs)@.contains(j) && fallback_hit(db, unit, run_kind)(j)),
        wait_count(final(jobs)@) + gone@.len() == wait_count(old(jobs)@),
        run_count(final(jobs)@) == run_count(old(jobs)@),
{
    let ghost before = jobs@;
    let mut gone: Vec<Job> = Vec::new();
    let (atom, kind1, kind2) = match run_kind {
        JobKind::JobStart | JobKind::JobVerify => (
            UnitRelationAtom::UnitAtomPropagateStartFailure,
            JobKind::JobStart,
            Some(JobKind::JobVerify),
        ),
        JobKind::JobStop => (UnitRelationAtom::UnitAtomPropagateStopFailure, JobKind::JobStop, None),
        _ => {
            proof {
                assert forall|i: int| 0 <= i < before.len() implies fallback_kept(
                    db,
                    unit,
                    run_kind,
                )(#[trigger] before[i]) by {}
                crate::seq_util::lemma_filter_all(before, fallback_kept(db, unit, run_kind));
            }
            return gone;
        },
    };
    let dests = db.dep_gets_atom(unit, atom);
    let mut n: usize = 0;
    proof {
        assert forall|i: int| 0 <= i < before.len() implies kept_among(
            dests@.take(0),
            kind1,
            kind2,
        )(#[trigger] before[i]) by {}
        crate::seq_util::lemma_filter_all(before, kept_among(dests@.take(0), kind1, kind2));
    }
    while n < dests.len()
        invariant
            n <= dests.len(),
            jobs.wf(),
            jobs@ == before.filter(kept_among(dests@.take(n as int), kind1, kind2)),
            forall|j: Job|
                #![trigger gone@.contains(j)]
                gone@.contains(j) <==> (before.contains(j) && hit_among(
                    dests@.take(n as int),
                    kind1,
                    kind2,
                )(j)),
            wait_count(jobs@) + gone@.len() == wait_count(before),
            run_count(jobs@) == run_count(before),
        decreases dests.len() - n,
    {
        let other = dests[n];
        let ghost jobs0 = jobs@;
        let ghost gone0 = gone@;
        let ghost seen = dests@.take(n as int);
        let ghost next = dests@.take(n + 1);
        let mut dels = jobs.remove_suspends(other, kind1, kind2);
        let ghost dels0 = dels@;
        gone.append(&mut dels);
        proof {
            assert(next =~= seen.push(other));
            assert forall|u: UnitId| next.contains(u) <==> seen.contains(u) || u == other by {
                if next.contains(u) {
                    let k = choose|k: int| 0 <= k < next.len() && next[k] == u;
                    if k < seen.len() {
                        assert(seen[k] == u);
                    }
                }
                if seen.contains(u) {
                    let k = choose|k: int| 0 <= k < seen.len() && seen[k] == u;
                    assert(next[k] == u);
                }
                if u == other {
                    assert(next[seen.len() as int] == u);
                }
            }
            assert forall|j: Job| #[trigger]
                kept_among(next, kind1, kind2)(j) == (kept_among(seen, kind1, kind2)(j)
                    && not_suspend_of(other, kind1, kind2)(j)) by {}
            lemma_filter_filter(
                before,
                kept_among(seen, kind1, kind2),
                not_suspend_of(other, kind1, kind2),
                kept_among(next, kind1, kind2),
            );
            assert forall|j: Job| #![trigger gone@.contains(j)]
                gone@.contains(j) <==> (before.contains(j) && hit_among(next, kind1, kind2)(j)) by {
                lemma_filter_member(jobs0, suspend_of(other, kind1, kind2), j);
                lemma_filter_member(before, kept_among(seen, kind1, kind2), j);
                assert(gone@ =~= gone0 + dels0);
                assert(gone0.contains(j) <==> before.contains(j) && hit_among(seen, kind1, kind2)(j));
                assert(dels0.contains(j) <==> jobs0.contains(j) && suspend_of(other, kind1, kind2)(
                    j,
                ));
                assert(jobs0.contains(j) <==> before.contains(j) && kept_among(seen, kind1, kind2)(
                    j,
                ));
                assert(next.contains(j.unit) <==> seen.contains(j.unit) || j.unit == other);
                if gone@.contains(j) {
                    let k = choose|k: int| 0 <= k < gone@.len() && gone@[k] == j;
                    if k < gone0.len() {
                        assert(gone0[k] == j);
                        assert(gone0.contains(j));
                    } else {
                        assert(dels0[k - gone0.len()] == j);
                        assert(dels0.contains(j));
                    }
                }
                if gone0.contains(j) {
                    let k = choose|k: int| 0 <= k < gone0.len() && gone0[k] == j;
                    assert(gone@[k] == j);
                }
                if dels0.contains(j) {
                    let k = choose|k: int| 0 <= k < dels0.len() && dels0[k] == j;
                    assert(gone@[gone0.len() + k] == j);
                }
            }
        }
        n = n + 1;
    }
    proof {
        assert(dests@.take(n as int) =~= dests@);
        assert(fallback_rule(run_kind) == Some((atom, kind1, kind2)));
        assert forall|j: Job| #[trigger]
            kept_among(dests@, kind1, kind2)(j) == fallback_kept(db, unit, run_kind)(j) by {}
        assert(kept_among(dests@, kind1, kind2) =~= fallback_kept(db, unit, run_kind));
        assert forall|j: Job| #![trigger gone@.contains(j)]
            gone@.contains(j) <==> (before.contains(j) && fallback_hit(db, unit, run_kind)(j)) by {
            assert(hit_among(dests@, kind1, kind2)(j) == fallback_hit(db, unit, run_kind)(j));
        }
    }
    gone
}

} // verus!
