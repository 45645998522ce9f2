//! Reconciliation: bringing the registry into step with a declared
//! configuration.

use vstd::prelude::*;
use crate::parse::{Config, ProgramSpec};
use crate::runtime::{
    after_events, holds_pid, jobs_wf, launches_of, lemma_launches_fill, lemma_pids_carried,
    live_count, place_in, ChildRecord, ChildState, ExitOutcome, ExitOutcomeView, ExitVerdict,
    JobView, Jobs, Registry, RuntimeJob,
};
use crate::signal::{stop_signal, stop_signal_of, StopSignal};
use crate::table::{has_name, lemma_lookup_at, lookup, names_distinct, position_of, Name};

verus! {

/// An order to end one child by the stop protocol. The record has left the
/// registry: the protocol owns it from here.
#[derive(Debug, PartialEq, Eq)]
pub struct StopOrder {
    /// The program that the child belonged to.
    pub name: String,
    /// The child, in state `Stopping`; signals go to its `group_id`.
    pub child: ChildRecord,
    /// The signal that asks the group to stop.
    pub signal: StopSignal,
    /// The seconds to wait before the group is killed.
    pub stoptime: usize,
}

/// The mathematical content of a [`StopOrder`].
pub struct StopOrderView {
    pub name: Name,
    pub child: ChildRecord,
    pub signal: StopSignal,
    pub stop_time: nat,
}

impl DeepView for StopOrder {
    type V = StopOrderView;

    open spec fn deep_view(&self) -> StopOrderView {
        StopOrderView {
            name: self.name@,
            child: self.child,
            signal: self.signal,
            stop_time: self.stoptime as nat,
        }
    }
}

/// An order to launch replicas of one program, as its job declares it.
#[derive(Debug, PartialEq, Eq)]
pub struct LaunchOrder {
    pub name: String,
    /// The replica index of the first process to launch.
    pub first_index: usize,
    /// How many processes to launch.
    pub count: usize,
}

/// The mathematical content of a [`LaunchOrder`].
pub struct LaunchOrderView {
    pub name: Name,
    pub first_index: nat,
    pub count: nat,
}

impl DeepView for LaunchOrder {
    type V = LaunchOrderView;

    open spec fn deep_view(&self) -> LaunchOrderView {
        LaunchOrderView {
            name: self.name@,
            first_index: self.first_index as nat,
            count: self.count as nat,
        }
    }
}

/// The launch that an exit calls for: where the verdict is a respawn, one
/// replacement for the program whose child exited, numbered after the
/// children that its job has left; otherwise none.
pub open spec fn respawn_for(report: ExitOutcomeView) -> Option<LaunchOrderView> {
    if report.verdict == ExitVerdict::Respawn {
        Some(LaunchOrderView { name: report.name, first_index: report.children_left, count: 1 })
    } else {
        None
    }
}

/// The order to launch the replacement that an exit calls for, if it
/// calls for one.
pub fn respawn_order(report: &ExitOutcome) -> (order: Option<LaunchOrder>)
    ensures
        order.deep_view() == respawn_for(report.deep_view()),
{
    match report.verdict {
        ExitVerdict::Respawn => Some(
            LaunchOrder { name: report.name.clone(), first_index: report.children_left, count: 1 },
        ),
        _ => None,
    }
}

/// What is left to do once the registry has been reconciled: first the
/// stops, then the launches.
#[derive(Debug, PartialEq, Eq)]
pub struct ReconcilePlan {
    pub stops: Vec<StopOrder>,
    pub launches: Vec<LaunchOrder>,
}

/// The order that stops child `k` of `job`, by the signal and the window
/// that the job's own declaration names.
pub open spec fn stop_order_for(name: Name, job: JobView, k: int) -> StopOrderView {
    StopOrderView {
        name,
        child: job.children[k].in_state(ChildState::Stopping),
        signal: stop_signal_of(job.spec.stop_signal),
        stop_time: job.spec.stop_time,
    }
}

/// The orders that stop every child of `job` but the first `keep`.
pub open spec fn stop_orders_from(name: Name, job: JobView, keep: nat) -> Seq<StopOrderView> {
    Seq::new(
        (job.children.len() - keep) as nat,
        |x: int| stop_order_for(name, job, keep + x),
    )
}

/// Group signalling: every order that stops a child of a well-formed job
/// names, as the target of its signals, the process group that the child
/// leads.
pub proof fn lemma_stop_orders_name_groups(name: Name, job: JobView, keep: nat, x: int)
    requires
        job.wf(),
        keep <= job.children.len(),
        0 <= x < stop_orders_from(name, job, keep).len(),
    ensures
        stop_orders_from(name, job, keep)[x].child.group_id == job.children[keep + x].pid,
        stop_orders_from(name, job, keep)[x].child.pid == job.children[keep + x].pid,
        stop_orders_from(name, job, keep)[x].child.state == ChildState::Stopping,
{
    assert(job.children[keep + x].live());
}

/// How many children of `job` stay when `declared` takes effect: none if
/// the program changed in more than its replica count, else as many as
/// the new count allows.
pub open spec fn kept_children(job: JobView, declared: ProgramSpec) -> nat {
    if job.spec.differs_materially(declared) {
        0
    } else if declared.num_procs < job.children.len() {
        declared.num_procs
    } else {
        job.children.len()
    }
}

/// How many replicas are to be launched for `declared`: for a known
/// program, what its kept children leave open; for a new one, all of them
/// if it starts by itself, else none.
pub open spec fn replicas_missing(before: Option<JobView>, declared: ProgramSpec) -> nat {
    match before {
        Some(job) => (declared.num_procs - kept_children(job, declared)) as nat,
        None => if declared.autostart {
            declared.num_procs
        } else {
            0
        },
    }
}

/// The job that `declared` leaves behind. A new program gets a fresh job.
/// A known one keeps its first children; its respawns are granted anew
/// when its declaration changed in any way or replicas are to be launched.
pub open spec fn reconciled(before: Option<JobView>, declared: ProgramSpec) -> JobView {
    match before {
        None => JobView::fresh(declared),
        Some(job) => JobView {
            spec: declared,
            children: job.children.take(kept_children(job, declared) as int),
            retries_left: if job.spec != declared || replicas_missing(before, declared) > 0 {
                declared.start_retries
            } else {
                job.retries_left
            },
        },
    }
}

/// The registry that a configuration leaves behind: its programs, in its
/// order, each with its reconciled job.
pub open spec fn reconciled_jobs(before: Jobs, declared: Seq<(Name, ProgramSpec)>) -> Jobs {
    Seq::new(
        declared.len(),
        |k: int| (declared[k].0, reconciled(lookup(before, declared[k].0), declared[k].1)),
    )
}

/// The stops of the programs that the configuration no longer declares:
/// every child of each, in registry order.
pub open spec fn removal_stops(before: Jobs, declared: Seq<(Name, ProgramSpec)>) -> Seq<
    StopOrderView,
>
    decreases before.len(),
{
    if before.len() == 0 {
        Seq::empty()
    } else {
        let last = before.last();
        removal_stops(before.drop_last(), declared) + if has_name(declared, last.0) {
            Seq::empty()
        } else {
            stop_orders_from(last.0, last.1, 0)
        }
    }
}

/// The stops of the programs that stay: for each, in configuration order,
/// the children that it does not keep.
pub open spec fn update_stops(before: Jobs, declared: Seq<(Name, ProgramSpec)>) -> Seq<
    StopOrderView,
>
    decreases declared.len(),
{
    if declared.len() == 0 {
        Seq::empty()
    } else {
        let last = declared.last();
        update_stops(before, declared.drop_last()) + match lookup(before, last.0) {
            Some(job) => stop_orders_from(last.0, job, kept_children(job, last.1)),
            None => Seq::empty(),
        }
    }
}

/// The launches of a configuration: for each program with replicas
/// missing, in configuration order, one order for all of them, numbered
/// after the children that stay.
pub open spec fn planned_launches(before: Jobs, declared: Seq<(Name, ProgramSpec)>) -> Seq<
    LaunchOrderView,
>
    decreases declared.len(),
{
    if declared.len() == 0 {
        Seq::empty()
    } else {
        let last = declared.last();
        let job = lookup(before, last.0);
        planned_launches(before, declared.drop_last()) + if replicas_missing(job, last.1) > 0 {
            seq![
                LaunchOrderView {
                    name: last.0,
                    first_index: (last.1.num_procs - replicas_missing(job, last.1)) as nat,
                    count: replicas_missing(job, last.1),
                },
            ]
        } else {
            Seq::empty()
        }
    }
}

/// A reconciled job is well formed, and each child of it is the child at
/// the same position of the job it came from.
pub proof fn lemma_reconciled_job(job: JobView, declared: ProgramSpec)
    requires
        job.wf(),
    ensures
        reconciled(Some(job), declared).wf(),
        reconciled(Some(job), declared).children.len() == kept_children(job, declared),
        kept_children(job, declared) <= job.children.len(),
        kept_children(job, declared) <= declared.num_procs,
        forall|k: int|
            0 <= k < kept_children(job, declared) ==> #[trigger] reconciled(
                Some(job),
                declared,
            ).children[k] == job.children[k],
{
    let after = reconciled(Some(job), declared);
    if !job.spec.differs_materially(declared) {
        assert(job.spec.with_count(0).start_retries == declared.with_count(0).start_retries);
    }
    assert forall|k: int| 0 <= k < after.children.len() implies (#[trigger] after.children[k]).live() by {
        assert(after.children[k] == job.children[k]);
    }
}

/// Reconciliation keeps the registry invariant.
pub proof fn lemma_reconciled_wf(before: Jobs, declared: Seq<(Name, ProgramSpec)>)
    requires
        jobs_wf(before),
        names_distinct(declared),
    ensures
        jobs_wf(reconciled_jobs(before, declared)),
{
    let after = reconciled_jobs(before, declared);
    assert(names_distinct(after)) by {
        assert forall|x: int, y: int| 0 <= x < y < after.len() implies (#[trigger] after[x]).0 != (
        #[trigger] after[y]).0 by {
            assert(declared[x].0 != declared[y].0);
        }
    }
    assert forall|k: int| 0 <= k < after.len() implies (#[trigger] after[k]).1.wf() by {
        let name = declared[k].0;
        if has_name(before, name) {
            assert(before[position_of(before, name)].1.wf());
            lemma_reconciled_job(before[position_of(before, name)].1, declared[k].1);
        }
    }
    let origin = |k: int, a: int| (position_of(before, declared[k].0), a);
    assert forall|k: int, a: int| place_in(after, k, a) implies {
        let from = #[trigger] origin(k, a);
        place_in(before, from.0, from.1) && before[from.0].1.children[from.1].pid
            == after[k].1.children[a].pid
    } by {
        let name = declared[k].0;
        assert(has_name(before, name));
        let p = position_of(before, name);
        assert(before[p].1.wf());
        lemma_reconciled_job(before[p].1, declared[k].1);
    }
    assert forall|k: int, a: int, j: int, b: int|
        place_in(after, k, a) && place_in(after, j, b) && #[trigger] origin(k, a)
            == #[trigger] origin(j, b) implies k == j && a == b by {
        assert(has_name(before, declared[k].0));
        assert(has_name(before, declared[j].0));
        let p = position_of(before, declared[k].0);
        assert(before[p].0 == declared[k].0);
        assert(before[p].0 == declared[j].0);
        if k < j {
            assert(declared[k].0 != declared[j].0);
        } else if j < k {
            assert(declared[j].0 != declared[k].0);
        }
    }
    lemma_pids_carried(before, after, origin);
}

/// Convergence: once a configuration has been applied and the replicas
/// that the plan asks for have been launched and registered, a declared
/// program has exactly as many live children as it declares, with all its
/// respawns where any were launched. This holds of every program that was
/// known before or starts by itself.
pub proof fn lemma_reload_converges(
    before: Jobs,
    declared: Seq<(Name, ProgramSpec)>,
    k: int,
    pids: Seq<i32>,
    now: u64,
)
    requires
        jobs_wf(before),
        names_distinct(declared),
        0 <= k < declared.len(),
        has_name(before, declared[k].0) || declared[k].1.autostart,
        pids.len() == replicas_missing(lookup(before, declared[k].0), declared[k].1),
        pids.no_duplicates(),
        forall|i: int|
            0 <= i < pids.len() ==> !holds_pid(reconciled_jobs(before, declared), #[trigger] pids[i]),
    ensures
        ({
            let name = declared[k].0;
            let settled = after_events(
                reconciled_jobs(before, declared),
                launches_of(name, pids, now),
            );
            &&& jobs_wf(settled)
            &&& has_name(settled, name)
            &&& live_count(settled, name) == declared[k].1.num_procs
            &&& settled[position_of(settled, name)].1.spec == declared[k].1
            &&& pids.len() > 0 ==> settled[position_of(settled, name)].1.retries_left
                == declared[k].1.start_retries
        }),
{
    let name = declared[k].0;
    let applied = reconciled_jobs(before, declared);
    lemma_reconciled_wf(before, declared);
    assert(applied[k].0 == name);
    lemma_lookup_at(applied, k);
    if has_name(before, name) {
        let p = position_of(before, name);
        assert(before[p].1.wf());
        lemma_reconciled_job(before[p].1, declared[k].1);
    }
    lemma_launches_fill(applied, name, pids, now);
    let settled = after_events(applied, launches_of(name, pids, now));
    assert(settled[k].0 == name);
    lemma_lookup_at(settled, k);
}

/// Appends to `stops` the orders that stop every child of `job` but the
/// first `keep`.
pub(crate) fn push_stop_orders(name: &String, job: &RuntimeJob, keep: usize, stops: &mut Vec<StopOrder>)
    requires
        keep <= job@.children.len(),
    ensures
        final(stops).deep_view() == old(stops).deep_view() + stop_orders_from(
            name@,
            job@,
            keep as nat,
        ),
{
    let ghost before = stops.deep_view();
    let signal = stop_signal(job.config.stopsignal.as_str());
    let mut k: usize = keep;
    assert(stops.deep_view() =~= before + stop_orders_from(name@, job@, keep as nat).take(0));
    while k < job.children.len()
        invariant
            keep <= k <= job.children.len(),
            signal == stop_signal_of(job@.spec.stop_signal),
            stops.deep_view() == before + stop_orders_from(name@, job@, keep as nat).take(
                k - keep,
            ),
        decreases job.children.len() - k,
    {
        let child = job.children[k];
        let ghost earlier = stops.deep_view();
        stops.push(
            StopOrder {
                name: name.clone(),
                child: ChildRecord {
                    pid: child.pid,
                    group_id: child.group_id,
                    state: ChildState::Stopping,
                    started_at: child.started_at,
                },
                signal,
                stoptime: job.config.stoptime,
            },
        );
        assert(stops.deep_view() =~= earlier.push(stop_order_for(name@, job@, k as int)));
        assert(stops.deep_view() =~= before + stop_orders_from(name@, job@, keep as nat).take(
            k + 1 - keep,
        ));
        k += 1;
    }
    assert(stops.deep_view() =~= before + stop_orders_from(name@, job@, keep as nat));
}

/// A copy of the first `keep` records of `children`.
fn first_children(children: &Vec<ChildRecord>, keep: usize) -> (kept: Vec<ChildRecord>)
    requires
        keep <= children.len(),
    ensures
        kept@ == children@.take(keep as int),
{
    let mut kept: Vec<ChildRecord> = Vec::new();
    let mut k: usize = 0;
    while k < keep
        invariant
            k <= keep <= children.len(),
            kept@ == children@.take(k as int),
        decreases keep - k,
    {
        kept.push(children[k]);
        assert(kept@ =~= children@.take(k + 1));
        k += 1;
    }
    kept
}

/// Brings `registry` into step with `cfg`, as one operation. Afterwards the
/// registry holds exactly the declared programs, in their order. A program
/// that is new gets a job without children. One that changed in more than
/// its replica count loses all its children; one that did not keeps its
/// first children, up to the declared count. Respawns are granted anew
/// wherever the declaration changed or replicas are launched. The plan
/// names what is left to do: stop every child that left the registry,
/// those of programs no longer declared included, then launch what each
/// program is short of.
pub fn apply_config(cfg: &Config, registry: &mut Registry) -> (plan: ReconcilePlan)
    requires
        cfg.wf(),
        old(registry).wf(),
    ensures
        final(registry).wf(),
        final(registry)@ == reconciled_jobs(old(registry)@, cfg@),
        plan.stops.deep_view() == removal_stops(old(registry)@, cfg@) + update_stops(
            old(registry)@,
            cfg@,
        ),
        plan.launches.deep_view() == planned_launches(old(registry)@, cfg@),
{
    let ghost before = registry@;
    let ghost declared = cfg@;
    let mut stops: Vec<StopOrder> = Vec::new();
    let mut launches: Vec<LaunchOrder> = Vec::new();
    let mut i: usize = 0;
    assert(before.take(0) =~= Seq::<(Name, JobView)>::empty());
    assert(stops.deep_view() =~= removal_stops(before.take(0), declared));
    while i < registry.len()
        invariant
            i <= registry@.len(),
            registry@ == before,
            declared == cfg@,
            stops.deep_view() == removal_stops(before.take(i as int), declared),
        decreases registry@.len() - i,
    {
        let name = registry.name_at(i);
        let ghost earlier = stops.deep_view();
        assert(before.take(i + 1).drop_last() =~= before.take(i as int));
        assert(before.take(i + 1).last() == before[i as int]);
        if cfg.position(name.as_str()).is_none() {
            push_stop_orders(name, registry.job_at(i), 0, &mut stops);
        } else {
            assert(stops.deep_view() =~= earlier + Seq::<StopOrderView>::empty());
        }
        i += 1;
    }
    assert(before.take(i as int) =~= before);
    let ghost removed = removal_stops(before, declared);
    let mut fresh = Registry::new();
    let mut k: usize = 0;
    assert(declared.take(0) =~= Seq::<(Name, ProgramSpec)>::empty());
    assert(stops.deep_view() =~= removed + update_stops(before, declared.take(0)));
    assert(launches.deep_view() =~= planned_launches(before, declared.take(0)));
    assert(fresh@ =~= reconciled_jobs(before, declared).take(0));
    while k < cfg.len()
        invariant
            k <= cfg@.len(),
            registry@ == before,
            jobs_wf(before),
            declared == cfg@,
            removed == removal_stops(before, declared),
            fresh@ == reconciled_jobs(before, declared).take(k as int),
            stops.deep_view() == removed + update_stops(before, declared.take(k as int)),
            launches.deep_view() == planned_launches(before, declared.take(k as int)),
        decreases cfg@.len() - k,
    {
        let name = cfg.name_at(k);
        let program = cfg.program_at(k);
        let ghost earlier_stops = stops.deep_view();
        let ghost earlier_launches = launches.deep_view();
        let ghost entry = declared[k as int];
        assert(entry == (name@, program@));
        assert(declared.take(k + 1).drop_last() =~= declared.take(k as int));
        assert(declared.take(k + 1).last() == entry);
        let job = match registry.position(name.as_str()) {
            Some(p) => {
                let known = registry.job_at(p);
                proof {
                    lemma_lookup_at(before, p as int);
                    assert(lookup(before, name@) == Some(known@));
                    assert(before[p as int].1.wf());
                    lemma_reconciled_job(known@, program@);
                }
                let changed = known.config.differs_materially(program);
                let keep = if changed {
                    0
                } else if program.numprocs < known.children.len() {
                    program.numprocs
                } else {
                    known.children.len()
                };
                assert(keep == kept_children(known@, program@));
                push_stop_orders(name, known, keep, &mut stops);
                let missing = program.numprocs - keep;
                RuntimeJob {
                    config: program.clone(),
                    children: first_children(&known.children, keep),
                    retries_left: if changed || program.numprocs != known.config.numprocs
                        || missing > 0 {
                        program.startretries
                    } else {
                        known.retries_left
                    },
                }
            },
            None => {
                assert(lookup(before, name@) is None);
                assert(stops.deep_view() =~= earlier_stops + Seq::<StopOrderView>::empty());
                RuntimeJob {
                    config: program.clone(),
                    children: Vec::new(),
                    retries_left: program.startretries,
                }
            },
        };
        assert(job@ == reconciled(lookup(before, name@), program@));
        let missing = program.numprocs - job.children.len();
        let wanted = if job.children.len() == 0 && registry.position(name.as_str()).is_none()
            && !program.autostart {
            0
        } else {
            missing
        };
        assert(wanted == replicas_missing(lookup(before, name@), program@));
        if wanted > 0 {
            launches.push(
                LaunchOrder { name: name.clone(), first_index: program.numprocs - wanted, count: wanted },
            );
            assert(launches.deep_view() =~= earlier_launches + seq![
                LaunchOrderView {
                    name: name@,
                    first_index: (program@.num_procs - wanted) as nat,
                    count: wanted as nat,
                },
            ]);
        } else {
            assert(launches.deep_view() =~= earlier_launches + Seq::<LaunchOrderView>::empty());
        }
        fresh.put_entry(k, name.clone(), job);
        assert(fresh@ =~= reconciled_jobs(before, declared).take(k + 1));
        assert(stops.deep_view() == removed + update_stops(before, declared.take(k + 1))) by {
            let tail = match lookup(before, entry.0) {
                Some(j) => stop_orders_from(entry.0, j, kept_children(j, entry.1)),
                None => Seq::empty(),
            };
            assert(stops.deep_view() == earlier_stops + tail);
            assert(earlier_stops + tail =~= removed + (update_stops(before, declared.take(k as int))
                + tail));
        }
        k += 1;
    }
    assert(declared.take(k as int) =~= declared);
    assert(fresh@ =~= reconciled_jobs(before, declared));
    proof {
        lemma_reconciled_wf(before, declared);
    }
    *registry = fresh;
    ReconcilePlan { stops, launches }
}

} // verus!
