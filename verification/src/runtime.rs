//! The job registry and the decisions of the child monitor.

use vstd::prelude::*;
use crate::parse::{ProgramConfig, ProgramSpec, RestartPolicy};
use crate::table::{has_name, lemma_lookup_at, names_distinct, position_of, Name};
use crate::signal::signal_exit_code;
use crate::text::same_text;

verus! {

/// Where a child stands in its life.
#[derive(Debug, Clone, Copy, PartialEq, Eq, Structural)]
pub enum ChildState {
    /// Launched, and still inside its start window.
    Starting,
    /// Outlived its start window.
    Running,
    /// Handed to the stop protocol.
    Stopping,
    /// Reaped.
    Exited,
}

/// One operating-system process that the supervisor launched.
#[derive(Debug, Clone, Copy, PartialEq, Eq, Structural)]
pub struct ChildRecord {
    pub pid: i32,
    /// The process group that the child leads.
    pub group_id: i32,
    pub state: ChildState,
    /// When the child was launched, in seconds on the caller's clock.
    pub started_at: u64,
}

impl ChildRecord {
    /// What a registry may hold: a group leader that is starting or running.
    pub open spec fn live(self) -> bool {
        self.group_id == self.pid && (self.state == ChildState::Starting || self.state
            == ChildState::Running)
    }

    /// The same child in another state.
    pub open spec fn in_state(self, state: ChildState) -> ChildRecord {
        ChildRecord { state, ..self }
    }

    /// The record of a child launched at `now` for a program whose start
    /// window lasts `start_time` seconds: it leads its own group, and it is
    /// running at once if there is no window to outlive.
    pub open spec fn launched(pid: i32, now: u64, start_time: nat) -> ChildRecord {
        ChildRecord {
            pid,
            group_id: pid,
            state: if start_time == 0 {
                ChildState::Running
            } else {
                ChildState::Starting
            },
            started_at: now,
        }
    }
}

/// The runtime state of one program: its active declaration, its live
/// children, and the respawns it has left.
#[derive(Debug, PartialEq, Eq)]
pub struct RuntimeJob {
    pub config: ProgramConfig,
    pub children: Vec<ChildRecord>,
    pub retries_left: usize,
}

/// The mathematical content of a [`RuntimeJob`].
pub struct JobView {
    pub spec: ProgramSpec,
    pub children: Seq<ChildRecord>,
    pub retries_left: nat,
}

impl JobView {
    /// Every child is live, and the respawns left never exceed what the
    /// declaration grants.
    pub open spec fn wf(self) -> bool {
        &&& self.retries_left <= self.spec.start_retries
        &&& forall|k: int| 0 <= k < self.children.len() ==> (#[trigger] self.children[k]).live()
    }

    /// A job for `spec` with no child yet and all its respawns.
    pub open spec fn fresh(spec: ProgramSpec) -> JobView {
        JobView { spec, children: Seq::empty(), retries_left: spec.start_retries }
    }
}

impl View for RuntimeJob {
    type V = JobView;

    open spec fn view(&self) -> JobView {
        JobView {
            spec: self.config@,
            children: self.children@,
            retries_left: self.retries_left as nat,
        }
    }
}

/// The jobs of a registry, each under its name.
pub type Jobs = Seq<(Name, JobView)>;

/// Whether `jobs` holds a child at place `(i, k)`: child `k` of job `i`.
pub open spec fn place_in(jobs: Jobs, i: int, k: int) -> bool {
    0 <= i < jobs.len() && 0 <= k < jobs[i].1.children.len()
}

/// Whether the child at place `(i, k)` has process id `pid`.
pub open spec fn pid_at(jobs: Jobs, i: int, k: int, pid: i32) -> bool {
    place_in(jobs, i, k) && jobs[i].1.children[k].pid == pid
}

/// Whether some child has process id `pid`.
pub open spec fn holds_pid(jobs: Jobs, pid: i32) -> bool {
    exists|i: int, k: int| pid_at(jobs, i, k, pid)
}

/// A place at which `pid` stands.
pub open spec fn place_of(jobs: Jobs, pid: i32) -> (int, int) {
    choose|place: (int, int)| pid_at(jobs, place.0, place.1, pid)
}

/// Whether no process id stands at two places.
pub open spec fn pids_distinct(jobs: Jobs) -> bool {
    forall|i: int, a: int, j: int, b: int|
        #![trigger jobs[i].1.children[a], jobs[j].1.children[b]]
        place_in(jobs, i, a) && place_in(jobs, j, b) && jobs[i].1.children[a].pid
            == jobs[j].1.children[b].pid ==> i == j && a == b
}

/// The registry invariant: names and process ids are unique, and every job
/// is well formed.
pub open spec fn jobs_wf(jobs: Jobs) -> bool {
    &&& names_distinct(jobs)
    &&& pids_distinct(jobs)
    &&& forall|i: int| 0 <= i < jobs.len() ==> (#[trigger] jobs[i]).1.wf()
}

/// The number of live children of the job called `name`; none if there is
/// no such job.
pub open spec fn live_count(jobs: Jobs, name: Name) -> nat {
    if has_name(jobs, name) {
        jobs[position_of(jobs, name)].1.children.len()
    } else {
        0
    }
}

/// A process id that some child has stands at its place.
pub proof fn lemma_place_found(jobs: Jobs, pid: i32)
    requires
        holds_pid(jobs, pid),
    ensures
        pid_at(jobs, place_of(jobs, pid).0, place_of(jobs, pid).1, pid),
{
    let (i, k) = choose|i: int, k: int| pid_at(jobs, i, k, pid);
    let witness = (i, k);
    assert(pid_at(jobs, witness.0, witness.1, pid));
}

/// With unique process ids, the place of a process id is the one place
/// where it stands.
pub proof fn lemma_place_of(jobs: Jobs, i: int, k: int)
    requires
        pids_distinct(jobs),
        place_in(jobs, i, k),
    ensures
        holds_pid(jobs, jobs[i].1.children[k].pid),
        place_of(jobs, jobs[i].1.children[k].pid) == (i, k),
{
    let pid = jobs[i].1.children[k].pid;
    assert(pid_at(jobs, i, k, pid));
    let witness = (i, k);
    assert(pid_at(jobs, witness.0, witness.1, pid));
    let place = place_of(jobs, pid);
    assert(pid_at(jobs, place.0, place.1, pid));
    assert(jobs[place.0].1.children[place.1].pid == jobs[i].1.children[k].pid);
}

/// Process ids stay unique in any list of jobs whose children all come,
/// each from a place of its own, out of a list where they were unique.
pub proof fn lemma_pids_carried(before: Jobs, after: Jobs, origin: spec_fn(int, int) -> (int, int))
    requires
        pids_distinct(before),
        forall|i: int, k: int|
            place_in(after, i, k) ==> {
                let from = #[trigger] origin(i, k);
                place_in(before, from.0, from.1) && before[from.0].1.children[from.1].pid
                    == after[i].1.children[k].pid
            },
        forall|i: int, a: int, j: int, b: int|
            place_in(after, i, a) && place_in(after, j, b) && #[trigger] origin(i, a)
                == #[trigger] origin(j, b) ==> i == j && a == b,
    ensures
        pids_distinct(after),
{
    assert forall|i: int, a: int, j: int, b: int|
        #![trigger after[i].1.children[a], after[j].1.children[b]]
        place_in(after, i, a) && place_in(after, j, b) && after[i].1.children[a].pid
            == after[j].1.children[b].pid implies i == j && a == b by {
        let x = origin(i, a);
        let y = origin(j, b);
        assert(before[x.0].1.children[x.1].pid == before[y.0].1.children[y.1].pid);
        assert(x.0 == y.0 && x.1 == y.1);
    }
}

/// The job `job` with `children` in place of its own.
pub open spec fn with_children(job: JobView, children: Seq<ChildRecord>) -> JobView {
    JobView { children, ..job }
}

/// The invariant survives when one job is replaced by a well-formed job
/// whose children all come, each from a place of its own, out of the job
/// it replaces.
pub proof fn lemma_job_narrowed(jobs: Jobs, i: int, job: JobView, from: spec_fn(int) -> int)
    requires
        jobs_wf(jobs),
        0 <= i < jobs.len(),
        job.wf(),
        forall|k: int|
            0 <= k < job.children.len() ==> 0 <= #[trigger] from(k) < jobs[i].1.children.len()
                && jobs[i].1.children[from(k)].pid == job.children[k].pid,
        forall|a: int, b: int|
            0 <= a < job.children.len() && 0 <= b < job.children.len() && #[trigger] from(a)
                == #[trigger] from(b) ==> a == b,
    ensures
        jobs_wf(jobs.update(i, (jobs[i].0, job))),
{
    let after = jobs.update(i, (jobs[i].0, job));
    assert(names_distinct(after)) by {
        assert forall|x: int, y: int| 0 <= x < y < after.len() implies (#[trigger] after[x]).0 != (
        #[trigger] after[y]).0 by {
            assert(after[x].0 == jobs[x].0);
            assert(after[y].0 == jobs[y].0);
        }
    }
    assert forall|x: int| 0 <= x < after.len() implies (#[trigger] after[x]).1.wf() by {
        if x != i {
            assert(after[x] == jobs[x]);
        }
    }
    let origin = |x: int, k: int|
        if x == i {
            (i, from(k))
        } else {
            (x, k)
        };
    assert forall|x: int, k: int| place_in(after, x, k) implies {
        let o = #[trigger] origin(x, k);
        place_in(jobs, o.0, o.1) && jobs[o.0].1.children[o.1].pid == after[x].1.children[k].pid
    } by {
        if x != i {
            assert(after[x] == jobs[x]);
        }
    }
    assert forall|x: int, a: int, y: int, b: int|
        place_in(after, x, a) && place_in(after, y, b) && #[trigger] origin(x, a)
            == #[trigger] origin(y, b) implies x == y && a == b by {
        if x == i && y == i {
            assert(from(a) == from(b));
        }
    }
    lemma_pids_carried(jobs, after, origin);
}

/// The invariant survives when one job gains a live child whose process
/// id no child bears yet.
pub proof fn lemma_job_gained(jobs: Jobs, i: int, record: ChildRecord)
    requires
        jobs_wf(jobs),
        0 <= i < jobs.len(),
        record.live(),
        !holds_pid(jobs, record.pid),
    ensures
        jobs_wf(
            jobs.update(i, (jobs[i].0, with_children(jobs[i].1, jobs[i].1.children.push(record)))),
        ),
{
    let job = with_children(jobs[i].1, jobs[i].1.children.push(record));
    let after = jobs.update(i, (jobs[i].0, job));
    let last = jobs[i].1.children.len() as int;
    assert(names_distinct(after)) by {
        assert forall|x: int, y: int| 0 <= x < y < after.len() implies (#[trigger] after[x]).0 != (
        #[trigger] after[y]).0 by {
            assert(after[x].0 == jobs[x].0);
            assert(after[y].0 == jobs[y].0);
        }
    }
    assert forall|x: int| 0 <= x < after.len() implies (#[trigger] after[x]).1.wf() by {
        if x != i {
            assert(after[x] == jobs[x]);
        } else {
            assert(jobs[i].1.wf());
            assert forall|k: int| 0 <= k < job.children.len() implies (
            #[trigger] job.children[k]).live() by {
                if k < last {
                    assert(job.children[k] == jobs[i].1.children[k]);
                }
            }
        }
    }
    assert forall|x: int, a: int, y: int, b: int|
        #![trigger after[x].1.children[a], after[y].1.children[b]]
        place_in(after, x, a) && place_in(after, y, b) && after[x].1.children[a].pid
            == after[y].1.children[b].pid implies x == y && a == b by {
        let new_x = x == i && a == last;
        let new_y = y == i && b == last;
        if x != i {
            assert(after[x] == jobs[x]);
        }
        if y != i {
            assert(after[y] == jobs[y]);
        }
        if !new_x && !new_y {
            assert(place_in(jobs, x, a) && place_in(jobs, y, b));
            assert(jobs[x].1.children[a].pid == jobs[y].1.children[b].pid);
        } else if new_x && !new_y {
            assert(pid_at(jobs, y, b, record.pid));
        } else if !new_x && new_y {
            assert(pid_at(jobs, x, a, record.pid));
        }
    }
}

/// What the restart policy says about an exit with `code`.
pub open spec fn restart_wanted(code: u32, policy: RestartPolicy, expected: Seq<u32>) -> bool {
    match policy {
        RestartPolicy::Always => true,
        RestartPolicy::Never => false,
        RestartPolicy::Unexpected => !expected.contains(code),
    }
}

/// Whether `code` occurs in `expected`.
pub fn code_listed(code: u32, expected: &[u32]) -> (found: bool)
    ensures
        found == expected@.contains(code),
{
    let mut i: usize = 0;
    while i < expected.len()
        invariant
            i <= expected.len(),
            forall|j: int| 0 <= j < i ==> expected@[j] != code,
        decreases expected.len() - i,
    {
        if expected[i] == code {
            return true;
        }
        i += 1;
    }
    false
}

/// Decides whether a process that exited with `code` is to be replaced:
/// always, never, or when the code is not among the expected ones.
pub fn should_restart(code: u32, policy: RestartPolicy, expected: &[u32]) -> (restart: bool)
    ensures
        restart == restart_wanted(code, policy, expected@),
        policy == RestartPolicy::Always ==> restart,
        policy == RestartPolicy::Never ==> !restart,
        policy == RestartPolicy::Unexpected ==> restart == !expected@.contains(code),
{
    match policy {
        RestartPolicy::Always => true,
        RestartPolicy::Never => false,
        RestartPolicy::Unexpected => !code_listed(code, expected),
    }
}

/// What became of an attempt to register a launched child.
#[derive(Debug, Clone, Copy, PartialEq, Eq, Structural)]
pub enum Registration {
    /// The child is now among the children of its job.
    Registered(ChildRecord),
    /// No job bears the name: the program was removed in the meantime, and
    /// the launched process is nobody's.
    UnknownProgram,
    /// A child with that process id is registered already.
    DuplicatePid,
}

/// What follows the exit of a child.
#[derive(Debug, Clone, Copy, PartialEq, Eq, Structural)]
pub enum ExitVerdict {
    /// One replacement is to be launched; a respawn was used up.
    Respawn,
    /// A replacement was wanted, but no respawn is left: the job stays
    /// short of its replica count.
    RetryLimit,
    /// The policy asks for no replacement.
    Finished,
}

/// The report on one exit: whose child it was and what follows.
#[derive(Debug, PartialEq, Eq)]
pub struct ExitOutcome {
    /// The program whose child exited.
    pub name: String,
    /// The record that left the registry, now in state `Exited`.
    pub child: ChildRecord,
    /// Whether the child was still inside its start window.
    pub during_startup: bool,
    pub verdict: ExitVerdict,
    /// The respawns that the job has left after this exit.
    pub retries_left: usize,
    /// The children that the job has left after this exit.
    pub children_left: usize,
}

/// What follows when a child of `job` exits with `code`.
pub open spec fn verdict_for(job: JobView, code: u32) -> ExitVerdict {
    if !restart_wanted(code, job.spec.restart_policy, job.spec.expected_exit_codes) {
        ExitVerdict::Finished
    } else if job.retries_left > 0 {
        ExitVerdict::Respawn
    } else {
        ExitVerdict::RetryLimit
    }
}

/// The job after its child `k` exited with `code`: the record is gone, and
/// a respawn is used up if one is granted.
pub open spec fn job_after_exit(job: JobView, k: int, code: u32) -> JobView {
    JobView {
        spec: job.spec,
        children: job.children.remove(k),
        retries_left: if verdict_for(job, code) == ExitVerdict::Respawn {
            (job.retries_left - 1) as nat
        } else {
            job.retries_left
        },
    }
}

/// The mathematical content of an [`ExitOutcome`].
pub struct ExitOutcomeView {
    pub name: Name,
    pub child: ChildRecord,
    pub during_startup: bool,
    pub verdict: ExitVerdict,
    pub retries_left: nat,
    pub children_left: nat,
}

impl DeepView for ExitOutcome {
    type V = ExitOutcomeView;

    open spec fn deep_view(&self) -> ExitOutcomeView {
        ExitOutcomeView {
            name: self.name@,
            child: self.child,
            during_startup: self.during_startup,
            verdict: self.verdict,
            retries_left: self.retries_left as nat,
            children_left: self.children_left as nat,
        }
    }
}

/// The registry after a child launched at `now` with process id `pid` was
/// registered for the program `name`: the child joins its job, unless the
/// program is unknown or the process id is taken.
pub open spec fn after_launch(jobs: Jobs, name: Name, pid: i32, now: u64) -> Jobs {
    if has_name(jobs, name) && !holds_pid(jobs, pid) {
        let i = position_of(jobs, name);
        let job = jobs[i].1;
        jobs.update(
            i,
            (
                name,
                with_children(
                    job,
                    job.children.push(ChildRecord::launched(pid, now, job.spec.start_time)),
                ),
            ),
        )
    } else {
        jobs
    }
}

/// The registry after the child with process id `pid` exited with `code`:
/// its record is gone and its job has paid for the respawn, if one is
/// granted. An unknown process id changes nothing.
pub open spec fn after_exit(jobs: Jobs, pid: i32, code: u32) -> Jobs {
    if holds_pid(jobs, pid) {
        let place = place_of(jobs, pid);
        jobs.update(
            place.0,
            (jobs[place.0].0, job_after_exit(jobs[place.0].1, place.1, code)),
        )
    } else {
        jobs
    }
}

/// The report on the exit of the child with process id `pid` with `code`;
/// none for an unknown process id.
pub open spec fn exit_report(jobs: Jobs, pid: i32, code: u32) -> Option<ExitOutcomeView> {
    if holds_pid(jobs, pid) {
        let place = place_of(jobs, pid);
        let job = jobs[place.0].1;
        let child = job.children[place.1];
        Some(
            ExitOutcomeView {
                name: jobs[place.0].0,
                child: child.in_state(ChildState::Exited),
                during_startup: child.state == ChildState::Starting,
                verdict: verdict_for(job, code),
                retries_left: job_after_exit(job, place.1, code).retries_left,
                children_left: job_after_exit(job, place.1, code).children.len(),
            },
        )
    } else {
        None
    }
}

/// Whether two lists of jobs bear the same names at the same positions.
pub open spec fn same_names(a: Jobs, b: Jobs) -> bool {
    a.len() == b.len() && forall|i: int| 0 <= i < a.len() ==> (#[trigger] a[i]).0 == b[i].0
}

/// Registering a launched child keeps the invariant and every name in
/// its place.
pub proof fn lemma_after_launch(jobs: Jobs, name: Name, pid: i32, now: u64)
    requires
        jobs_wf(jobs),
    ensures
        jobs_wf(after_launch(jobs, name, pid, now)),
        same_names(jobs, after_launch(jobs, name, pid, now)),
{
    if has_name(jobs, name) && !holds_pid(jobs, pid) {
        let i = position_of(jobs, name);
        let record = ChildRecord::launched(pid, now, jobs[i].1.spec.start_time);
        lemma_job_gained(jobs, i, record);
    }
}

/// Recording an exit keeps the invariant and every name in its place,
/// and leaves no child with the process id that exited: a record leaves
/// the registry once, and a second report of the same exit finds nothing.
pub proof fn lemma_after_exit(jobs: Jobs, pid: i32, code: u32)
    requires
        jobs_wf(jobs),
    ensures
        jobs_wf(after_exit(jobs, pid, code)),
        same_names(jobs, after_exit(jobs, pid, code)),
        !holds_pid(after_exit(jobs, pid, code), pid),
        after_exit(after_exit(jobs, pid, code), pid, code) == after_exit(jobs, pid, code),
        exit_report(after_exit(jobs, pid, code), pid, code) is None,
{
    if holds_pid(jobs, pid) {
        let place = place_of(jobs, pid);
        let i = place.0;
        let k = place.1;
        lemma_place_found(jobs, pid);
        let old_job = jobs[i].1;
        let new_job = job_after_exit(old_job, k, code);
        let after = after_exit(jobs, pid, code);
        assert(old_job.wf());
        let from = |x: int|
            if x < k {
                x
            } else {
                x + 1
            };
        assert(new_job.wf()) by {
            assert forall|x: int| 0 <= x < new_job.children.len() implies (
            #[trigger] new_job.children[x]).live() by {
                assert(new_job.children[x] == old_job.children[from(x)]);
            }
        }
        lemma_job_narrowed(jobs, i, new_job, from);
        assert forall|x: int, y: int| !pid_at(after, x, y, pid) by {
            if pid_at(after, x, y, pid) {
                if x == i {
                    assert(after[x].1.children[y] == jobs[x].1.children[from(y)]);
                    assert(place_in(jobs, x, from(y)));
                    assert(jobs[x].1.children[from(y)].pid == jobs[i].1.children[k].pid);
                } else {
                    assert(after[x] == jobs[x]);
                    assert(place_in(jobs, x, y));
                    assert(jobs[x].1.children[y].pid == jobs[i].1.children[k].pid);
                }
            }
        }
    }
}

/// Something that the child monitor sees happen to a registry between two
/// reconciliations.
pub enum MonitorEvent {
    /// A child launched at `now` with process id `pid` was registered for
    /// the program `name`.
    Launched { name: Name, pid: i32, now: u64 },
    /// The child with process id `pid` exited with `code`.
    Exited { pid: i32, code: u32 },
}

/// The registry after one event.
pub open spec fn after_event(jobs: Jobs, event: MonitorEvent) -> Jobs {
    match event {
        MonitorEvent::Launched { name, pid, now } => after_launch(jobs, name, pid, now),
        MonitorEvent::Exited { pid, code } => after_exit(jobs, pid, code),
    }
}

/// The registry after a run of events, in order.
pub open spec fn after_events(jobs: Jobs, events: Seq<MonitorEvent>) -> Jobs
    decreases events.len(),
{
    if events.len() == 0 {
        jobs
    } else {
        after_event(after_events(jobs, events.drop_last()), events.last())
    }
}

/// Whether `event` makes the monitor order a replacement for a child of
/// the program `name`.
pub open spec fn orders_respawn(jobs: Jobs, name: Name, event: MonitorEvent) -> bool {
    event matches MonitorEvent::Exited { pid, code } && exit_report(jobs, pid, code)
        == Some(
        ExitOutcomeView {
            name,
            verdict: ExitVerdict::Respawn,
            ..exit_report(jobs, pid, code)->0
        },
    )
}

/// How many replacements the monitor orders for the program `name` over
/// a run of events.
pub open spec fn respawns(jobs: Jobs, name: Name, events: Seq<MonitorEvent>) -> nat
    decreases events.len(),
{
    if events.len() == 0 {
        0
    } else {
        respawns(jobs, name, events.drop_last()) + if orders_respawn(
            after_events(jobs, events.drop_last()),
            name,
            events.last(),
        ) {
            1nat
        } else {
            0nat
        }
    }
}

/// The respawns that the job called `name` has left.
pub open spec fn retries_of(jobs: Jobs, name: Name) -> nat {
    jobs[position_of(jobs, name)].1.retries_left
}

/// Bounded retries: over any run of launches and exits, however the
/// children crash, each replacement ordered for a program uses up one of
/// its respawns. So the replacements never number more than the respawns
/// the job had, which are never more than its declaration grants.
pub proof fn lemma_respawns_bounded(jobs: Jobs, name: Name, events: Seq<MonitorEvent>)
    requires
        jobs_wf(jobs),
        has_name(jobs, name),
    ensures
        jobs_wf(after_events(jobs, events)),
        same_names(jobs, after_events(jobs, events)),
        respawns(jobs, name, events) + retries_of(after_events(jobs, events), name) == retries_of(
            jobs,
            name,
        ),
        respawns(jobs, name, events) <= retries_of(jobs, name),
        retries_of(jobs, name) <= jobs[position_of(jobs, name)].1.spec.start_retries,
    decreases events.len(),
{
    let p = position_of(jobs, name);
    assert(0 <= p < jobs.len() && jobs[p].0 == name);
    assert(jobs[p].1.wf());
    if events.len() > 0 {
        let earlier = events.drop_last();
        let event = events.last();
        lemma_respawns_bounded(jobs, name, earlier);
        let mid = after_events(jobs, earlier);
        let end = after_event(mid, event);
        assert(mid[p].0 == name);
        lemma_lookup_at(mid, p);
        match event {
            MonitorEvent::Launched { name: program, pid, now } => {
                lemma_after_launch(mid, program, pid, now);
                assert(end[p].0 == name);
                lemma_lookup_at(end, p);
            },
            MonitorEvent::Exited { pid, code } => {
                lemma_after_exit(mid, pid, code);
                assert(end[p].0 == name);
                lemma_lookup_at(end, p);
                if holds_pid(mid, pid) {
                    let place = place_of(mid, pid);
                    lemma_place_found(mid, pid);
                    if place.0 != p {
                        assert(mid[place.0].0 != mid[p].0) by {
                            if place.0 < p {
                                assert(mid[place.0].0 != mid[p].0);
                            } else {
                                assert(mid[p].0 != mid[place.0].0);
                            }
                        }
                    }
                }
            },
        }
    }
}

/// A second report of an exit changes nothing and reports nothing,
/// whatever code it brings.
pub proof fn lemma_exit_recorded_once(jobs: Jobs, pid: i32, first: u32, second: u32)
    requires
        jobs_wf(jobs),
    ensures
        after_exit(after_exit(jobs, pid, first), pid, second) == after_exit(jobs, pid, first),
        exit_report(after_exit(jobs, pid, first), pid, second) is None,
{
    lemma_after_exit(jobs, pid, first);
}

/// The events that register, for the program `name`, one child launched
/// at `now` for each of `pids`, in order.
pub open spec fn launches_of(name: Name, pids: Seq<i32>, now: u64) -> Seq<MonitorEvent> {
    Seq::new(pids.len(), |i: int| MonitorEvent::Launched { name, pid: pids[i], now })
}

/// Registering launched children with new process ids, each its own, adds
/// exactly that many children to their job.
pub proof fn lemma_launches_fill(jobs: Jobs, name: Name, pids: Seq<i32>, now: u64)
    requires
        jobs_wf(jobs),
        has_name(jobs, name),
        pids.no_duplicates(),
        forall|i: int| 0 <= i < pids.len() ==> !holds_pid(jobs, #[trigger] pids[i]),
    ensures
        jobs_wf(after_events(jobs, launches_of(name, pids, now))),
        same_names(jobs, after_events(jobs, launches_of(name, pids, now))),
        live_count(after_events(jobs, launches_of(name, pids, now)), name) == live_count(
            jobs,
            name,
        ) + pids.len(),
        after_events(jobs, launches_of(name, pids, now))[position_of(jobs, name)].1.spec
            == jobs[position_of(jobs, name)].1.spec,
        after_events(jobs, launches_of(name, pids, now))[position_of(jobs, name)].1.retries_left
            == jobs[position_of(jobs, name)].1.retries_left,
        forall|q: i32|
            holds_pid(after_events(jobs, launches_of(name, pids, now)), q) ==> holds_pid(jobs, q)
                || pids.contains(q),
    decreases pids.len(),
{
    let p = position_of(jobs, name);
    assert(0 <= p < jobs.len() && jobs[p].0 == name);
    let events = launches_of(name, pids, now);
    if pids.len() > 0 {
        let fewer = pids.drop_last();
        let pid = pids.last();
        assert(events.drop_last() =~= launches_of(name, fewer, now));
        assert(events.last() == MonitorEvent::Launched { name, pid, now });
        assert forall|i: int| 0 <= i < fewer.len() implies !holds_pid(jobs, #[trigger] fewer[i]) by {
            assert(fewer[i] == pids[i]);
        }
        lemma_launches_fill(jobs, name, fewer, now);
        let mid = after_events(jobs, launches_of(name, fewer, now));
        let end = after_launch(mid, name, pid, now);
        assert(mid[p].0 == name);
        lemma_lookup_at(mid, p);
        assert(!holds_pid(mid, pid)) by {
            if holds_pid(mid, pid) {
                assert(!holds_pid(jobs, pids[pids.len() - 1]));
                let at = choose|i: int| 0 <= i < fewer.len() && fewer[i] == pid;
                assert(pids[at] == pids[pids.len() - 1]);
            }
        }
        lemma_after_launch(mid, name, pid, now);
        assert(end[p].0 == name);
        lemma_lookup_at(end, p);
        assert forall|q: i32| holds_pid(end, q) implies holds_pid(jobs, q) || pids.contains(q) by {
            lemma_place_found(end, q);
            let place = place_of(end, q);
            if place.0 == p && place.1 == mid[p].1.children.len() {
                assert(pids[pids.len() - 1] == q);
            } else {
                if place.0 != p {
                    assert(end[place.0] == mid[place.0]);
                }
                assert(pid_at(mid, place.0, place.1, q));
                if !holds_pid(jobs, q) {
                    let at = choose|i: int| 0 <= i < fewer.len() && fewer[i] == q;
                    assert(pids[at] == q);
                }
            }
        }
    }
}

/// What a wait on any child said.
#[derive(Debug, Clone, Copy, PartialEq, Eq, Structural)]
pub enum WaitReport {
    /// The child exited by itself with `code`.
    Exited { pid: i32, code: u32 },
    /// The child was ended by signal number `signal`.
    Signaled { pid: i32, signal: u8 },
    /// No child has changed state.
    StillAlive,
    /// A child was suspended.
    Stopped { pid: i32 },
    /// A child was resumed.
    Continued { pid: i32 },
    /// The wait itself failed, as it does when there is no child.
    Failed,
}

impl WaitReport {
    /// The exit that the report tells of, as process id and exit code. An
    /// end by signal counts as exit code 128 plus the signal number.
    pub open spec fn exit(self) -> Option<(i32, u32)> {
        match self {
            WaitReport::Exited { pid, code } => Some((pid, code)),
            WaitReport::Signaled { pid, signal } => Some((pid, (128 + signal) as u32)),
            _ => None,
        }
    }

    /// Whether another wait is due at once: yes after news of some child,
    /// no when there was none or the wait failed.
    pub open spec fn more_expected(self) -> bool {
        !(self is StillAlive || self is Failed)
    }
}

/// What became of one wait report.
#[derive(Debug, PartialEq, Eq)]
pub struct Reaped {
    /// The report on the exit, if the wait told of one of a known child.
    pub outcome: Option<ExitOutcome>,
    /// Whether to wait again at once, rather than after a pause.
    pub poll_again: bool,
}

/// Whether the start window of `start_time` seconds, opened when `child`
/// was launched, is over at `now`.
pub open spec fn window_over(child: ChildRecord, start_time: nat, now: u64) -> bool {
    now >= child.started_at + start_time
}

/// The registry: every known program with its runtime job.
#[derive(Debug)]
pub struct Registry {
    jobs: Vec<(String, RuntimeJob)>,
}

impl View for Registry {
    type V = Jobs;

    closed spec fn view(&self) -> Jobs {
        Seq::new(self.jobs.len() as nat, |i: int| (self.jobs[i].0@, self.jobs[i].1@))
    }
}

impl Registry {
    /// The registry invariant holds of this registry.
    pub open spec fn wf(&self) -> bool {
        jobs_wf(self@)
    }

    /// A registry that knows no program.
    pub fn new() -> (registry: Registry)
        ensures
            registry.wf(),
            registry@.len() == 0,
    {
        Registry { jobs: Vec::new() }
    }

    /// The number of known programs.
    pub fn len(&self) -> (count: usize)
        ensures
            count == self@.len(),
    {
        self.jobs.len()
    }

    /// The position of the job called `name`, if there is one.
    pub fn position(&self, name: &str) -> (found: Option<usize>)
        ensures
            found is Some == has_name(self@, name@),
            found matches Some(i) ==> i < self@.len() && self@[i as int].0 == name@,
            self.wf() && found is Some ==> found->0 == position_of(self@, name@),
    {
        let mut i: usize = 0;
        while i < self.jobs.len()
            invariant
                i <= self.jobs.len(),
                forall|j: int| 0 <= j < i ==> (#[trigger] self@[j]).0 != name@,
            decreases self.jobs.len() - i,
        {
            if same_text(self.jobs[i].0.as_str(), name) {
                proof {
                    assert(self@[i as int].0 == name@);
                    if self.wf() {
                        lemma_lookup_at(self@, i as int);
                    }
                }
                return Some(i);
            }
            i += 1;
        }
        None
    }

    /// The name of the job at position `i`.
    pub fn name_at(&self, i: usize) -> (name: &String)
        requires
            i < self@.len(),
        ensures
            name@ == self@[i as int].0,
    {
        &self.jobs[i].0
    }

    /// The job at position `i`.
    pub fn job_at(&self, i: usize) -> (job: &RuntimeJob)
        requires
            i < self@.len(),
        ensures
            job@ == self@[i as int].1,
    {
        &self.jobs[i].1
    }

    /// The job called `name`, if there is one.
    pub fn job(&self, name: &str) -> (job: Option<&RuntimeJob>)
        ensures
            job is Some == has_name(self@, name@),
            self.wf() ==> (job matches Some(found) ==> found@ == self@[position_of(
                self@,
                name@,
            )].1),
    {
        match self.position(name) {
            Some(i) => Some(&self.jobs[i].1),
            None => None,
        }
    }

    /// The place at which `pid` stands, if a child has that process id.
    pub fn locate(&self, pid: i32) -> (found: Option<(usize, usize)>)
        ensures
            found is Some == holds_pid(self@, pid),
            found matches Some(place) ==> pid_at(self@, place.0 as int, place.1 as int, pid),
            self.wf() ==> (found matches Some(place) ==> (place.0 as int, place.1 as int)
                == place_of(self@, pid)),
    {
        let mut i: usize = 0;
        while i < self.jobs.len()
            invariant
                i <= self.jobs.len(),
                forall|x: int, k: int| 0 <= x < i ==> !pid_at(self@, x, k, pid),
            decreases self.jobs.len() - i,
        {
            let job = &self.jobs[i].1;
            let mut k: usize = 0;
            while k < job.children.len()
                invariant
                    i < self.jobs.len(),
                    k <= job.children.len(),
                    job@ == self@[i as int].1,
                    forall|y: int| 0 <= y < k ==> !pid_at(self@, i as int, y, pid),
                decreases job.children.len() - k,
            {
                if job.children[k].pid == pid {
                    proof {
                        assert(pid_at(self@, i as int, k as int, pid));
                        if self.wf() {
                            lemma_place_of(self@, i as int, k as int);
                        }
                    }
                    return Some((i, k));
                }
                k += 1;
            }
            i += 1;
        }
        None
    }

    /// Takes the entry at position `i` out of the registry.
    pub(crate) fn take_entry(&mut self, i: usize) -> (entry: (String, RuntimeJob))
        requires
            i < old(self)@.len(),
        ensures
            final(self)@ == old(self)@.remove(i as int),
            entry.0@ == old(self)@[i as int].0,
            entry.1@ == old(self)@[i as int].1,
    {
        let ghost before = self@;
        let entry = self.jobs.remove(i);
        assert(self@ =~= before.remove(i as int));
        entry
    }

    /// Puts an entry into the registry at position `i`.
    pub(crate) fn put_entry(&mut self, i: usize, name: String, job: RuntimeJob)
        requires
            i <= old(self)@.len(),
        ensures
            final(self)@ == old(self)@.insert(i as int, (name@, job@)),
    {
        let ghost before = self@;
        self.jobs.insert(i, (name, job));
        assert(self@ =~= before.insert(i as int, (name@, job@)));
    }

    /// For each program, in registry order, its name and the number of its
    /// children that are starting or running.
    pub fn status(&self) -> (lines: Vec<(String, usize)>)
        ensures
            lines@.len() == self@.len(),
            forall|i: int|
                0 <= i < self@.len() ==> (#[trigger] lines@[i]).0@ == self@[i].0 && lines@[i].1
                    == self@[i].1.children.len(),
    {
        let mut lines: Vec<(String, usize)> = Vec::new();
        let mut i: usize = 0;
        while i < self.jobs.len()
            invariant
                i <= self.jobs.len(),
                lines@.len() == i,
                forall|j: int|
                    0 <= j < i ==> (#[trigger] lines@[j]).0@ == self@[j].0 && lines@[j].1
                        == self@[j].1.children.len(),
            decreases self.jobs.len() - i,
        {
            lines.push((self.jobs[i].0.clone(), self.jobs[i].1.children.len()));
            i += 1;
        }
        lines
    }

    /// Registers a child that was launched at `now` with process id `pid`
    /// for the program `name`. The child joins its job as leader of its own
    /// group, starting, or running at once where the program has no start
    /// window. Nothing changes if the program is unknown or the process id
    /// is taken.
    pub fn register_child(&mut self, name: &str, pid: i32, now: u64) -> (outcome: Registration)
        requires
            old(self).wf(),
        ensures
            final(self).wf(),
            outcome is UnknownProgram <==> !has_name(old(self)@, name@),
            outcome is DuplicatePid <==> has_name(old(self)@, name@) && holds_pid(old(self)@, pid),
            final(self)@ == after_launch(old(self)@, name@, pid, now),
            outcome matches Registration::Registered(record) ==> record == ChildRecord::launched(
                pid,
                now,
                old(self)@[position_of(old(self)@, name@)].1.spec.start_time,
            ),
    {
        let ghost before = self@;
        let i = match self.position(name) {
            Some(i) => i,
            None => {
                return Registration::UnknownProgram;
            },
        };
        if self.locate(pid).is_some() {
            return Registration::DuplicatePid;
        }
        let (key, mut job) = self.take_entry(i);
        let record = ChildRecord {
            pid,
            group_id: pid,
            state: if job.config.starttime == 0 {
                ChildState::Running
            } else {
                ChildState::Starting
            },
            started_at: now,
        };
        job.children.push(record);
        self.put_entry(i, key, job);
        proof {
            let old_job = before[i as int].1;
            assert(self@ =~= before.update(
                i as int,
                (name@, with_children(old_job, old_job.children.push(record))),
            ));
            lemma_after_launch(before, name@, pid, now);
        }
        Registration::Registered(record)
    }

    /// Records that the child with process id `pid` exited with `code`. Its
    /// record leaves the registry, and the restart policy of its program
    /// decides what follows: a replacement is ordered only while a respawn is
    /// left, and each one ordered uses one up. An unknown process id changes
    /// nothing.
    pub fn handle_child_exit(&mut self, pid: i32, code: u32) -> (outcome: Option<ExitOutcome>)
        requires
            old(self).wf(),
        ensures
            final(self).wf(),
            !holds_pid(final(self)@, pid),
            final(self)@ == after_exit(old(self)@, pid, code),
            outcome.deep_view() == exit_report(old(self)@, pid, code),
    {
        let ghost before = self@;
        let (i, k) = match self.locate(pid) {
            Some(place) => place,
            None => {
                return None;
            },
        };
        let (key, mut job) = self.take_entry(i);
        let ghost old_job = job@;
        let child = job.children.remove(k);
        let restart = match job.config.autorestart {
            RestartPolicy::Always => true,
            RestartPolicy::Never => false,
            RestartPolicy::Unexpected => !job.config.exitcodes.lists(code),
        };
        let verdict = if !restart {
            ExitVerdict::Finished
        } else if job.retries_left > 0 {
            job.retries_left -= 1;
            ExitVerdict::Respawn
        } else {
            ExitVerdict::RetryLimit
        };
        let report = ExitOutcome {
            name: key.clone(),
            child: ChildRecord {
                pid: child.pid,
                group_id: child.group_id,
                state: ChildState::Exited,
                started_at: child.started_at,
            },
            during_startup: child.state == ChildState::Starting,
            verdict,
            retries_left: job.retries_left,
            children_left: job.children.len(),
        };
        let ghost new_job = job@;
        self.put_entry(i, key, job);
        proof {
            assert(old_job == before[i as int].1);
            assert(new_job == job_after_exit(old_job, k as int, code));
            assert(self@ =~= after_exit(before, pid, code));
            lemma_after_exit(before, pid, code);
        }
        Some(report)
    }

    /// Marks the child with process id `pid` as running if it is still
    /// starting and its start window is over at `now`; says whether it did.
    pub fn mark_healthy(&mut self, pid: i32, now: u64) -> (healthy: bool)
        requires
            old(self).wf(),
        ensures
            final(self).wf(),
            healthy == (holds_pid(old(self)@, pid) && {
                let place = place_of(old(self)@, pid);
                let job = old(self)@[place.0].1;
                job.children[place.1].state == ChildState::Starting && window_over(
                    job.children[place.1],
                    job.spec.start_time,
                    now,
                )
            }),
            !healthy ==> final(self)@ == old(self)@,
            healthy ==> {
                let place = place_of(old(self)@, pid);
                let job = old(self)@[place.0].1;
                final(self)@ == old(self)@.update(
                    place.0,
                    (
                        old(self)@[place.0].0,
                        with_children(
                            job,
                            job.children.update(
                                place.1,
                                job.children[place.1].in_state(ChildState::Running),
                            ),
                        ),
                    ),
                )
            },
    {
        let ghost before = self@;
        let (i, k) = match self.locate(pid) {
            Some(place) => place,
            None => {
                return false;
            },
        };
        let child = self.jobs[i].1.children[k];
        let window = self.jobs[i].1.config.starttime;
        assert(child == before[i as int].1.children[k as int]);
        assert(window == before[i as int].1.spec.start_time);
        if child.state != ChildState::Starting || now < child.started_at || now - child.started_at
            < window as u64 {
            return false;
        }
        let (key, mut job) = self.take_entry(i);
        let ghost old_job = job@;
        job.children.set(
            k,
            ChildRecord {
                pid: child.pid,
                group_id: child.group_id,
                state: ChildState::Running,
                started_at: child.started_at,
            },
        );
        let ghost new_job = job@;
        self.put_entry(i, key, job);
        proof {
            assert(self@ =~= before.update(i as int, (before[i as int].0, new_job)));
            assert(old_job.wf());
            assert(old_job.children[k as int].live());
            assert(new_job.wf()) by {
                assert forall|x: int| 0 <= x < new_job.children.len() implies (
                #[trigger] new_job.children[x]).live() by {
                    if x != k {
                        assert(new_job.children[x] == old_job.children[x]);
                    }
                }
            }
            lemma_job_narrowed(before, i as int, new_job, |x: int| x);
        }
        true
    }
}

/// Takes in what one wait on any child said. An exit, by itself or by a
/// signal, is recorded as [`Registry::handle_child_exit`] records it; any
/// other report leaves the registry as it is.
pub fn reap_children(report: WaitReport, registry: &mut Registry) -> (reaped: Reaped)
    requires
        old(registry).wf(),
    ensures
        final(registry).wf(),
        reaped.poll_again == report.more_expected(),
        report.exit() matches Some(exit) ==> final(registry)@ == after_exit(
            old(registry)@,
            exit.0,
            exit.1,
        ) && reaped.outcome.deep_view() == exit_report(old(registry)@, exit.0, exit.1),
        report.exit() is None ==> final(registry)@ == old(registry)@ && reaped.outcome is None,
{
    match report {
        WaitReport::Exited { pid, code } => {
            let outcome = registry.handle_child_exit(pid, code);
            Reaped { outcome, poll_again: true }
        },
        WaitReport::Signaled { pid, signal } => {
            let outcome = registry.handle_child_exit(pid, signal_exit_code(signal));
            Reaped { outcome, poll_again: true }
        },
        WaitReport::StillAlive => Reaped { outcome: None, poll_again: false },
        WaitReport::Failed => Reaped { outcome: None, poll_again: false },
        WaitReport::Stopped { pid } => Reaped { outcome: None, poll_again: true },
        WaitReport::Continued { pid } => Reaped { outcome: None, poll_again: true },
    }
}

} // verus!
