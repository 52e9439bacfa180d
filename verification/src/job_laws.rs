//! What follows from the contracts of the job manager for the two simplest requests:
//! the start of a unit that stands alone, and the start of a unit that requires one
//! other unit.
use crate::job_entry::{Job, JobConf, JobErrno, JobKind};
use crate::job_manager::{
    commit_jobs, exec_result, exec_view, jobs_of, lemma_accepted_set, lemma_ids_fit, trans_confs,
    trans_jobs, trans_order, JobView,
};
use crate::job_table::{confs, new_to, not_superseded_by, stage_conflicts};
use crate::job_transaction::{
    affect_confs, conf_at, expand_confs, expand_edges, expand_order, lemma_expand_order_unfold,
    lemma_reach_self, lemma_reach_step, lemma_record_order_unfold, trans_path,
};
use crate::seq_util::lemma_filter_all;
use crate::unit::{JobMode, UnitDb, UnitId};
use vstd::prelude::*;

verus! {

/// The start of a unit that implies nothing else, asked of a manager without jobs in
/// `JobReplace` mode, is carried out and queues exactly one job: the start of that
/// unit, waiting, and about to start it.
pub proof fn lemma_exec_single(db: &UnitDb, v0: JobView, unit: UnitId)
    requires
        v0.jobs.len() == 0,
        v0.last_id < u32::MAX,
        expand_edges(db, JobMode::JobReplace, conf_at(unit, JobKind::JobStart)).len() == 0,
    ensures
        exec_result(db, v0, conf_at(unit, JobKind::JobStart), JobMode::JobReplace) == Ok::<
            (),
            JobErrno,
        >(()),
        exec_view(db, v0, conf_at(unit, JobKind::JobStart), JobMode::JobReplace).jobs
            == seq![Job::fresh((v0.last_id + 1) as u32, conf_at(unit, JobKind::JobStart))],
        trans_jobs(db, conf_at(unit, JobKind::JobStart), JobMode::JobReplace, v0.last_id)
            == seq![Job::fresh((v0.last_id + 1) as u32, conf_at(unit, JobKind::JobStart))],
{
    let mode = JobMode::JobReplace;
    let root = conf_at(unit, JobKind::JobStart);
    let fuel = (u32::MAX - v0.last_id) as nat;
    let job = Job::fresh((v0.last_id + 1) as u32, root);
    let staged = seq![job];
    // the order in which the requests are staged
    let none = Seq::<JobConf>::empty();
    lemma_expand_order_unfold(db, mode, seq![root], none, fuel);
    assert(seq![root].last() == root);
    let rest = seq![root].drop_last() + expand_edges(db, mode, root).reverse();
    assert(rest.len() == 0);
    lemma_expand_order_unfold(db, mode, rest, none.push(root), (fuel - 1) as nat);
    assert(none.push(root) =~= seq![root]);
    assert(expand_order(db, mode, seq![root], none, fuel) == seq![root]);
    lemma_record_order_unfold(
        Seq::<UnitId>::empty(),
        JobKind::JobStop,
        seq![root],
        (fuel - 1) as nat,
    );
    assert(trans_order(db, root, mode, v0.last_id) == seq![root]);
    assert(jobs_of(v0.last_id, seq![root]) =~= staged);
    // the requests that are staged
    let set = trans_confs(db, root, mode);
    lemma_reach_self(db, mode, Set::empty(), root);
    assert forall|c: JobConf| set.contains(c) implies c == root by {
        assert(affect_confs(db, expand_confs(db, mode, Set::empty(), root), root, mode)
            =~= Set::<JobConf>::empty());
        let path = choose|path: Seq<JobConf>|
            #[trigger] trans_path(db, mode, Set::empty(), path) && path[0] == root && path.last()
                == c;
        if path.len() > 1 {
            assert(expand_edges(db, mode, path[0]).contains(path[1]));
        }
    }
    assert(confs(staged).contains(root)) by {
        assert(staged[0].conf() == root);
    }
    assert(confs(staged) =~= set);
    lemma_ids_fit(staged, set, v0.last_id);
    lemma_accepted_set(staged, v0.jobs, mode);
    assert(!stage_conflicts(staged, staged[0]));
    // the table after the commit
    assert(v0.jobs.filter(not_superseded_by(staged)) =~= Seq::<Job>::empty()) by {
        reveal(Seq::filter);
    }
    assert forall|i: int| 0 <= i < staged.len() implies new_to(v0.jobs)(#[trigger] staged[i]) by {}
    lemma_filter_all(staged, new_to(v0.jobs));
    assert(commit_jobs(v0.jobs, staged) =~= staged);
}

/// The start of a unit that implies the start of one other unit and nothing else,
/// that other unit implying nothing, asked of a manager without jobs in `JobReplace`
/// mode, is carried out and queues exactly two jobs: the start of the one unit and the
/// start of the other, both waiting, and about to start their units.
pub proof fn lemma_exec_pair(db: &UnitDb, v0: JobView, unit: UnitId, other: UnitId)
    requires
        v0.jobs.len() == 0,
        v0.last_id + 1 < u32::MAX,
        unit != other,
        expand_edges(db, JobMode::JobReplace, conf_at(unit, JobKind::JobStart)) == seq![
            conf_at(other, JobKind::JobStart),
        ],
        expand_edges(db, JobMode::JobReplace, conf_at(other, JobKind::JobStart)).len() == 0,
    ensures
        exec_result(db, v0, conf_at(unit, JobKind::JobStart), JobMode::JobReplace) == Ok::<
            (),
            JobErrno,
        >(()),
        exec_view(db, v0, conf_at(unit, JobKind::JobStart), JobMode::JobReplace).jobs == seq![
            Job::fresh((v0.last_id + 1) as u32, conf_at(unit, JobKind::JobStart)),
            Job::fresh((v0.last_id + 2) as u32, conf_at(other, JobKind::JobStart)),
        ],
{
    let mode = JobMode::JobReplace;
    let root = conf_at(unit, JobKind::JobStart);
    let next = conf_at(other, JobKind::JobStart);
    let fuel = (u32::MAX - v0.last_id) as nat;
    let staged = seq![
        Job::fresh((v0.last_id + 1) as u32, root),
        Job::fresh((v0.last_id + 2) as u32, next),
    ];
    // the order in which the requests are staged
    let none = Seq::<JobConf>::empty();
    lemma_expand_order_unfold(db, mode, seq![root], none, fuel);
    assert(seq![root].last() == root);
    let rest = seq![root].drop_last() + expand_edges(db, mode, root).reverse();
    assert(rest =~= seq![next]);
    assert(none.push(root) =~= seq![root]);
    lemma_expand_order_unfold(db, mode, seq![next], seq![root], (fuel - 1) as nat);
    assert(seq![next].last() == next);
    assert(!seq![root].contains(next));
    let last = seq![next].drop_last() + expand_edges(db, mode, next).reverse();
    assert(last.len() == 0);
    lemma_expand_order_unfold(db, mode, last, seq![root].push(next), (fuel - 2) as nat);
    assert(seq![root].push(next) =~= seq![root, next]);
    assert(expand_order(db, mode, seq![root], none, fuel) == seq![root, next]);
    lemma_record_order_unfold(
        Seq::<UnitId>::empty(),
        JobKind::JobStop,
        seq![root, next],
        (fuel - 2) as nat,
    );
    assert(trans_order(db, root, mode, v0.last_id) == seq![root, next]);
    assert(jobs_of(v0.last_id, seq![root, next]) =~= staged);
    // the requests that are staged
    let set = trans_confs(db, root, mode);
    lemma_reach_self(db, mode, Set::empty(), root);
    assert(expand_edges(db, mode, root)[0] == next);
    lemma_reach_step(db, mode, Set::empty(), root, root, next);
    assert forall|c: JobConf| set.contains(c) implies c == root || c == next by {
        assert(affect_confs(db, expand_confs(db, mode, Set::empty(), root), root, mode)
            =~= Set::<JobConf>::empty());
        let path = choose|path: Seq<JobConf>|
            #[trigger] trans_path(db, mode, Set::empty(), path) && path[0] == root && path.last()
                == c;
        if path.len() > 1 {
            assert(expand_edges(db, mode, path[0]).contains(path[1]));
            assert(path[1] == next);
            if path.len() > 2 {
                assert(expand_edges(db, mode, path[1]).contains(path[2]));
            }
        }
    }
    assert(confs(staged).contains(root)) by {
        assert(staged[0].conf() == root);
    }
    assert(confs(staged).contains(next)) by {
        assert(staged[1].conf() == next);
    }
    assert(confs(staged) =~= set);
    lemma_ids_fit(staged, set, v0.last_id);
    lemma_accepted_set(staged, v0.jobs, mode);
    assert(!stage_conflicts(staged, staged[0]));
    assert(!stage_conflicts(staged, staged[1]));
    // the table after the commit
    assert(v0.jobs.filter(not_superseded_by(staged)) =~= Seq::<Job>::empty()) by {
        reveal(Seq::filter);
    }
    assert forall|i: int| 0 <= i < staged.len() implies new_to(v0.jobs)(#[trigger] staged[i]) by {}
    lemma_filter_all(staged, new_to(v0.jobs));
    assert(commit_jobs(v0.jobs, staged) =~= staged);
}

} // verus!
