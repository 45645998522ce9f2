//! Directed commands on one program, and the stop protocol.

use vstd::prelude::*;
use crate::parse::{Config, ProgramSpec};
use crate::reconcile::{push_stop_orders, stop_orders_from, LaunchOrder, LaunchOrderView, StopOrder};
use crate::runtime::{
    jobs_wf, lemma_job_narrowed, live_count, place_in, with_children, JobView, Jobs, Registry,
    RuntimeJob,
};
use crate::table::{has_name, lemma_lookup_at, lemma_lookup_push, lookup, position_of, Name};

verus! {

/// The job that a start leaves behind: it bears `declared`, keeps the
/// children it has, if any, and has all the respawns that `declared`
/// grants.
pub open spec fn started_job(before: Option<JobView>, declared: ProgramSpec) -> JobView {
    JobView {
        spec: declared,
        children: match before {
            Some(job) => job.children,
            None => Seq::empty(),
        },
        retries_left: declared.start_retries,
    }
}

/// The registry after a start of `name`, declared as `declared`: a job
/// that exists is replaced in its place, a job that does not is added at
/// the end.
pub open spec fn started_jobs(before: Jobs, name: Name, declared: ProgramSpec) -> Jobs {
    if has_name(before, name) {
        let i = position_of(before, name);
        before.update(i, (name, started_job(Some(before[i].1), declared)))
    } else {
        before.push((name, started_job(None, declared)))
    }
}

/// Starts the program `name` if `configs` declares it. Its job then bears
/// the configuration's declaration, as a reload would have stored it, with
/// all the respawns that this declaration grants; the children it has
/// stay. The order returned asks for as many replicas as the configuration
/// declares, numbered after those children. An undeclared name changes
/// nothing and yields no order.
pub fn start_program(name: &str, configs: &Config, registry: &mut Registry) -> (order: Option<
    LaunchOrder,
>)
    requires
        configs.wf(),
        old(registry).wf(),
    ensures
        final(registry).wf(),
        order is Some == has_name(configs@, name@),
        order is None ==> final(registry)@ == old(registry)@,
        order matches Some(launch) ==> {
            let declared = lookup(configs@, name@)->0;
            let after = final(registry)@;
            let job = after[position_of(after, name@)].1;
            &&& after == started_jobs(old(registry)@, name@, declared)
            &&& has_name(after, name@)
            &&& job.spec == declared
            &&& job.retries_left == declared.start_retries
            &&& job.children.len() == live_count(old(registry)@, name@)
            &&& launch.deep_view() == LaunchOrderView {
                name: name@,
                first_index: live_count(old(registry)@, name@),
                count: declared.num_procs,
            }
        },
{
    let ghost before = registry@;
    let declared = match configs.get(name) {
        Some(program) => program,
        None => {
            return None;
        },
    };
    let first_index = match registry.position(name) {
        Some(i) => {
            let (key, mut job) = registry.take_entry(i);
            job.config = declared.clone();
            job.retries_left = declared.startretries;
            let kept = job.children.len();
            let ghost new_job = job@;
            registry.put_entry(i, key, job);
            proof {
                assert(new_job == started_job(Some(before[i as int].1), declared@));
                assert(registry@ =~= before.update(i as int, (name@, new_job)));
                assert(before[i as int].1.wf());
                assert(new_job.wf()) by {
                    assert forall|x: int| 0 <= x < new_job.children.len() implies (
                    #[trigger] new_job.children[x]).live() by {
                        assert(new_job.children[x] == before[i as int].1.children[x]);
                    }
                }
                lemma_job_narrowed(before, i as int, new_job, |x: int| x);
                lemma_lookup_at(registry@, i as int);
            }
            kept
        },
        None => {
            let job = RuntimeJob {
                config: declared.clone(),
                children: Vec::new(),
                retries_left: declared.startretries,
            };
            let end = registry.len();
            let ghost new_job = job@;
            registry.put_entry(end, name.to_owned(), job);
            proof {
                assert(new_job == started_job(None, declared@));
                assert(registry@ =~= before.push((name@, new_job)));
                lemma_fresh_job_added(before, name@, new_job);
                lemma_lookup_at(registry@, end as int);
            }
            0
        },
    };
    Some(LaunchOrder { name: name.to_owned(), first_index, count: declared.numprocs })
}

/// The invariant survives when a job without children joins under a new
/// name.
pub proof fn lemma_fresh_job_added(jobs: Jobs, name: Name, job: JobView)
    requires
        jobs_wf(jobs),
        !has_name(jobs, name),
        job.wf(),
        job.children.len() == 0,
    ensures
        jobs_wf(jobs.push((name, job))),
{
    let after = jobs.push((name, job));
    lemma_lookup_push(jobs, name, job);
    assert forall|x: int| 0 <= x < after.len() implies (#[trigger] after[x]).1.wf() by {
        if x < jobs.len() {
            assert(after[x] == jobs[x]);
        }
    }
    assert forall|x: int, a: int, y: int, b: int|
        #![trigger after[x].1.children[a], after[y].1.children[b]]
        place_in(after, x, a) && place_in(after, y, b) && after[x].1.children[a].pid
            == after[y].1.children[b].pid implies x == y && a == b by {
        assert(after[x] == jobs[x]);
        assert(after[y] == jobs[y]);
        assert(place_in(jobs, x, a) && place_in(jobs, y, b));
    }
}

/// Stops the program `name` if it has a job: every child leaves the job,
/// which stays with its declaration, and the orders returned stop each of
/// them, in order. An unknown name changes nothing and yields no orders.
pub fn stop_program(name: &str, registry: &mut Registry) -> (orders: Option<Vec<StopOrder>>)
    requires
        old(registry).wf(),
    ensures
        final(registry).wf(),
        orders is Some == has_name(old(registry)@, name@),
        orders is None ==> final(registry)@ == old(registry)@,
        orders matches Some(stops) ==> {
            let i = position_of(old(registry)@, name@);
            let job = old(registry)@[i].1;
            &&& stops.deep_view() == stop_orders_from(name@, job, 0)
            &&& final(registry)@ == old(registry)@.update(
                i,
                (name@, with_children(job, Seq::empty())),
            )
        },
{
    let ghost before = registry@;
    let i = match registry.position(name) {
        Some(i) => i,
        None => {
            return None;
        },
    };
    let (key, mut job) = registry.take_entry(i);
    let mut stops: Vec<StopOrder> = Vec::new();
    assert(stops.deep_view() =~= Seq::empty());
    push_stop_orders(&key, &job, 0, &mut stops);
    assert(stops.deep_view() =~= stop_orders_from(name@, before[i as int].1, 0));
    job.children = Vec::new();
    let ghost new_job = job@;
    registry.put_entry(i, key, job);
    proof {
        assert(new_job == with_children(before[i as int].1, Seq::empty()));
        assert(registry@ =~= before.update(i as int, (name@, new_job)));
        assert(before[i as int].1.wf());
        lemma_job_narrowed(before, i as int, new_job, |x: int| x);
    }
    Some(stops)
}

/// The pause between two polls of a stopping child, in milliseconds.
pub const POLL_INTERVAL_MS: u128 = 100;

/// What a non-blocking wait said about a child.
#[derive(Debug, Clone, Copy, PartialEq, Eq, Structural)]
pub enum PollResult {
    StillAlive,
    Exited,
    /// The wait itself failed.
    Failed,
}

/// How a stop ended.
#[derive(Debug, Clone, Copy, PartialEq, Eq, Structural)]
pub enum StopEnding {
    /// The child exited inside the stop window.
    Clean,
    /// The window ran out, and the group was killed and reaped.
    Killed,
    /// A wait failed; the child counts as gone.
    Lost,
}

/// Where the stop of one child stands, which is also what its caller is to
/// do next.
#[derive(Debug, Clone, Copy, PartialEq, Eq, Structural)]
pub enum StopPhase {
    /// Send the stop signal to the child's group.
    Signal,
    /// Poll the child without blocking, `elapsed_ms` into the window.
    Poll { elapsed_ms: u128 },
    /// Pause for one poll interval.
    Sleep { elapsed_ms: u128 },
    /// Send the kill signal to the child's group.
    Kill,
    /// Wait for the child until it is reaped.
    Reap,
    /// Nothing is left to do.
    Done(StopEnding),
}

/// The phase after `phase`, for a stop window of `window_ms` milliseconds.
/// The signal opens the window; while it is open the child is polled, one
/// interval apart, and an exit ends the stop. When it closes with the
/// child alive, the group is killed and the child reaped. `poll` counts in
/// phase `Poll` only.
pub open spec fn next_phase(phase: StopPhase, window_ms: nat, poll: PollResult) -> StopPhase {
    match phase {
        StopPhase::Signal => if 0 < window_ms {
            StopPhase::Poll { elapsed_ms: 0 }
        } else {
            StopPhase::Kill
        },
        StopPhase::Poll { elapsed_ms } => match poll {
            PollResult::StillAlive => StopPhase::Sleep { elapsed_ms },
            PollResult::Exited => StopPhase::Done(StopEnding::Clean),
            PollResult::Failed => StopPhase::Done(StopEnding::Lost),
        },
        StopPhase::Sleep { elapsed_ms } => if elapsed_ms + POLL_INTERVAL_MS < window_ms {
            StopPhase::Poll { elapsed_ms: (elapsed_ms + POLL_INTERVAL_MS) as u128 }
        } else {
            StopPhase::Kill
        },
        StopPhase::Kill => StopPhase::Reap,
        StopPhase::Reap => StopPhase::Done(StopEnding::Killed),
        StopPhase::Done(ending) => StopPhase::Done(ending),
    }
}

/// The polls that a window of `window_ms` milliseconds still allows,
/// `elapsed_ms` into it.
pub open spec fn polls_left(elapsed_ms: nat, window_ms: nat) -> nat {
    if elapsed_ms < window_ms {
        ((window_ms - elapsed_ms + POLL_INTERVAL_MS - 1) / (POLL_INTERVAL_MS as int)) as nat
    } else {
        0
    }
}

/// An upper bound on the phases that follow `phase` before the stop is done.
pub open spec fn steps_left(phase: StopPhase, window_ms: nat) -> nat {
    match phase {
        StopPhase::Signal => 5 + 2 * polls_left(0, window_ms),
        StopPhase::Poll { elapsed_ms } => 4 + 2 * polls_left(elapsed_ms as nat, window_ms),
        StopPhase::Sleep { elapsed_ms } => 3 + 2 * polls_left(elapsed_ms as nat, window_ms),
        StopPhase::Kill => 2,
        StopPhase::Reap => 1,
        StopPhase::Done(_) => 0,
    }
}

/// The stop window of an order, in milliseconds.
pub open spec fn window_ms(order: StopOrder) -> nat {
    (order.stoptime * 1000) as nat
}

/// Moves the stop of one child on by one phase: `phase` was carried out,
/// and `poll` is what the poll said if it was one. Each phase brings the
/// stop closer to its end, whatever the polls say.
pub fn stop_and_cleanup_pid(order: &StopOrder, phase: StopPhase, poll: PollResult) -> (next:
    StopPhase)
    ensures
        next == next_phase(phase, window_ms(*order), poll),
        phase is Done || steps_left(next, window_ms(*order)) < steps_left(phase, window_ms(*order)),
{
    let window: u128 = (order.stoptime as u128) * 1000;
    match phase {
        StopPhase::Signal => if 0 < window {
            StopPhase::Poll { elapsed_ms: 0 }
        } else {
            StopPhase::Kill
        },
        StopPhase::Poll { elapsed_ms } => match poll {
            PollResult::StillAlive => StopPhase::Sleep { elapsed_ms },
            PollResult::Exited => StopPhase::Done(StopEnding::Clean),
            PollResult::Failed => StopPhase::Done(StopEnding::Lost),
        },
        StopPhase::Sleep { elapsed_ms } => if elapsed_ms < window && window - elapsed_ms
            > POLL_INTERVAL_MS {
            StopPhase::Poll { elapsed_ms: elapsed_ms + POLL_INTERVAL_MS }
        } else {
            StopPhase::Kill
        },
        StopPhase::Kill => StopPhase::Reap,
        StopPhase::Reap => StopPhase::Done(StopEnding::Killed),
        StopPhase::Done(ending) => StopPhase::Done(ending),
    }
}

/// The phase that the stop of `order` reaches from `phase` after as many
/// steps as there are entries in `polls`, step `i` being told poll result
/// `i`.
pub open spec fn phase_after(order: StopOrder, phase: StopPhase, polls: Seq<PollResult>) -> StopPhase
    decreases polls.len(),
{
    if polls.len() == 0 {
        phase
    } else {
        next_phase(phase_after(order, phase, polls.drop_last()), window_ms(order), polls.last())
    }
}

/// Whatever the polls say, the stop of a child is done after at most
/// `steps_left` steps.
pub proof fn lemma_stop_ends(order: StopOrder, phase: StopPhase, polls: Seq<PollResult>)
    ensures
        steps_left(phase_after(order, phase, polls), window_ms(order)) + polls.len() <= steps_left(
            phase,
            window_ms(order),
        ) || phase_after(order, phase, polls) is Done,
        polls.len() >= steps_left(phase, window_ms(order)) ==> phase_after(
            order,
            phase,
            polls,
        ) is Done,
    decreases polls.len(),
{
    if polls.len() > 0 {
        lemma_stop_ends(order, phase, polls.drop_last());
    }
}

/// Whether step `i` of a stop from its beginning was a poll, inside the
/// stop window, that said `poll`.
pub open spec fn polled_at(order: StopOrder, polls: Seq<PollResult>, i: int, poll: PollResult) -> bool {
    &&& 0 <= i < polls.len()
    &&& polls[i] == poll
    &&& phase_after(order, StopPhase::Signal, polls.take(i)) matches StopPhase::Poll { elapsed_ms }
    &&& elapsed_ms < window_ms(order)
}

/// Whether step `i` of a stop from its beginning sent the kill signal.
pub open spec fn killed_at(order: StopOrder, polls: Seq<PollResult>, i: int) -> bool {
    0 <= i < polls.len() && phase_after(order, StopPhase::Signal, polls.take(i)) is Kill
}

/// Graceful stop: a stop has ended cleanly exactly if a poll inside the
/// stop window found the child gone, and is given up as lost exactly if
/// such a poll failed. The kill signal has gone to the group exactly if
/// the stop is reaping or has ended as killed. The child is never polled
/// once the window is used up.
pub proof fn lemma_stop_endings(order: StopOrder, polls: Seq<PollResult>)
    ensures
        phase_after(order, StopPhase::Signal, polls) == StopPhase::Done(StopEnding::Clean)
            <==> exists|i: int| polled_at(order, polls, i, PollResult::Exited),
        phase_after(order, StopPhase::Signal, polls) == StopPhase::Done(StopEnding::Lost)
            <==> exists|i: int| polled_at(order, polls, i, PollResult::Failed),
        phase_after(order, StopPhase::Signal, polls) is Reap || phase_after(
            order,
            StopPhase::Signal,
            polls,
        ) == StopPhase::Done(StopEnding::Killed) <==> exists|i: int| killed_at(order, polls, i),
        phase_after(order, StopPhase::Signal, polls) matches StopPhase::Poll { elapsed_ms }
            ==> elapsed_ms < window_ms(order),
        phase_after(order, StopPhase::Signal, polls) matches StopPhase::Sleep { elapsed_ms }
            ==> elapsed_ms < window_ms(order),
    decreases polls.len(),
{
    if polls.len() > 0 {
        let earlier = polls.drop_last();
        let last = polls.len() - 1;
        lemma_stop_endings(order, earlier);
        let before = phase_after(order, StopPhase::Signal, earlier);
        assert(polls.take(last) =~= earlier);
        assert forall|i: int, poll: PollResult| 0 <= i < last implies (polled_at(
            order,
            earlier,
            i,
            poll,
        ) <==> polled_at(order, polls, i, poll)) by {
            assert(polls.take(i) =~= earlier.take(i));
        }
        assert forall|i: int| 0 <= i < last implies (killed_at(order, earlier, i) <==> killed_at(
            order,
            polls,
            i,
        )) by {
            assert(polls.take(i) =~= earlier.take(i));
        }
        let after = phase_after(order, StopPhase::Signal, polls);
        if exists|i: int| polled_at(order, polls, i, PollResult::Exited) {
            let i = choose|i: int| polled_at(order, polls, i, PollResult::Exited);
            if i < last {
                assert(polled_at(order, earlier, i, PollResult::Exited));
            }
            assert(after == StopPhase::Done(StopEnding::Clean));
        }
        if exists|i: int| polled_at(order, polls, i, PollResult::Failed) {
            let i = choose|i: int| polled_at(order, polls, i, PollResult::Failed);
            if i < last {
                assert(polled_at(order, earlier, i, PollResult::Failed));
            }
            assert(after == StopPhase::Done(StopEnding::Lost));
        }
        if exists|i: int| killed_at(order, polls, i) {
            let i = choose|i: int| killed_at(order, polls, i);
            if i < last {
                assert(killed_at(order, earlier, i));
            }
            assert(after is Reap || after == StopPhase::Done(StopEnding::Killed));
        }
        match before {
            StopPhase::Poll { elapsed_ms } => {
                if polls[last] == PollResult::Exited {
                    assert(polled_at(order, polls, last, PollResult::Exited));
                } else if polls[last] == PollResult::Failed {
                    assert(polled_at(order, polls, last, PollResult::Failed));
                }
            },
            StopPhase::Kill => {
                assert(killed_at(order, polls, last));
            },
            StopPhase::Reap => {
                let i = choose|i: int| killed_at(order, earlier, i);
                assert(killed_at(order, polls, i));
            },
            StopPhase::Done(StopEnding::Clean) => {
                let i = choose|i: int| polled_at(order, earlier, i, PollResult::Exited);
                assert(polled_at(order, polls, i, PollResult::Exited));
            },
            StopPhase::Done(StopEnding::Killed) => {
                let i = choose|i: int| killed_at(order, earlier, i);
                assert(killed_at(order, polls, i));
            },
            StopPhase::Done(StopEnding::Lost) => {
                let i = choose|i: int| polled_at(order, earlier, i, PollResult::Failed);
                assert(polled_at(order, polls, i, PollResult::Failed));
            },
            _ => {},
        }
    } else {
        assert forall|i: int, poll: PollResult| !polled_at(order, polls, i, poll) by {}
        assert forall|i: int| !killed_at(order, polls, i) by {}
    }
}

/// A stop that is done has ended as killed exactly if no poll inside the
/// stop window found the child gone or failed: the group is killed when,
/// and only when, the window closes on a child that is still there.
pub proof fn lemma_kill_only_after_window(order: StopOrder, polls: Seq<PollResult>)
    requires
        phase_after(order, StopPhase::Signal, polls) is Done,
    ensures
        phase_after(order, StopPhase::Signal, polls) == StopPhase::Done(StopEnding::Killed) <==> (
        forall|i: int|
            !polled_at(order, polls, i, PollResult::Exited) && !polled_at(
                order,
                polls,
                i,
                PollResult::Failed,
            )),
        phase_after(order, StopPhase::Signal, polls) == StopPhase::Done(StopEnding::Killed)
            <==> exists|i: int| killed_at(order, polls, i),
{
    lemma_stop_endings(order, polls);
}

} // verus!
