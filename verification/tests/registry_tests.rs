use supervisor::runtime::{reap_children, Reaped, WaitReport};
use supervisor::{
    apply_config, respawn_order, ChildRecord, ChildState, Config, ExitVerdict, LaunchOrder,
    OneOrMany, ProgramConfig, Registration, Registry, RestartPolicy,
};

fn program(cmd: &str, numprocs: usize) -> ProgramConfig {
    ProgramConfig {
        cmd: cmd.to_string(),
        args: vec![],
        numprocs,
        umask: None,
        workingdir: None,
        autostart: true,
        autorestart: RestartPolicy::Never,
        exitcodes: OneOrMany::One(0),
        startretries: 0,
        starttime: 0,
        stopsignal: "TERM".to_string(),
        stoptime: 0,
        stdout: None,
        stderr: None,
        env: None,
    }
}

fn registry_with(name: &str, program: ProgramConfig) -> Registry {
    let mut config = Config::new();
    config.insert(name.to_string(), program);
    let mut registry = Registry::new();
    apply_config(&config, &mut registry);
    registry
}

#[test]
fn new_registry_is_empty() {
    let registry = Registry::new();
    assert_eq!(registry.len(), 0);
    assert!(registry.status().is_empty());
    assert!(registry.job("web").is_none());
    assert_eq!(registry.position("web"), None);
    assert_eq!(registry.locate(1), None);
}

#[test]
fn register_child_adds_a_group_leader() {
    let mut sleeper = program("/bin/sleep", 2);
    sleeper.starttime = 1;
    let mut registry = registry_with("sleeper", sleeper);
    let outcome = registry.register_child("sleeper", 4242, 100);
    let expected = ChildRecord { pid: 4242, group_id: 4242, state: ChildState::Starting, started_at: 100 };
    assert_eq!(outcome, Registration::Registered(expected));
    assert_eq!(registry.job("sleeper").unwrap().children, vec![expected]);
    assert_eq!(registry.locate(4242), Some((0, 0)));
}

#[test]
fn register_child_without_start_window_is_running_at_once() {
    let mut registry = registry_with("quick", program("/bin/true", 1));
    let outcome = registry.register_child("quick", 7, 5);
    assert_eq!(
        outcome,
        Registration::Registered(ChildRecord { pid: 7, group_id: 7, state: ChildState::Running, started_at: 5 })
    );
}

#[test]
fn register_child_rejects_unknown_program() {
    let mut registry = registry_with("known", program("/bin/true", 1));
    assert_eq!(registry.register_child("gone", 9, 0), Registration::UnknownProgram);
    assert_eq!(registry.locate(9), None);
    assert_eq!(registry.job("known").unwrap().children.len(), 0);
}

#[test]
fn register_child_rejects_taken_pid() {
    let mut config = Config::new();
    config.insert("a".to_string(), program("/bin/true", 1));
    config.insert("b".to_string(), program("/bin/true", 1));
    let mut registry = Registry::new();
    apply_config(&config, &mut registry);
    assert!(matches!(registry.register_child("a", 11, 0), Registration::Registered(_)));
    assert_eq!(registry.register_child("b", 11, 0), Registration::DuplicatePid);
    assert_eq!(registry.register_child("a", 11, 0), Registration::DuplicatePid);
    assert_eq!(registry.job("a").unwrap().children.len(), 1);
    assert_eq!(registry.job("b").unwrap().children.len(), 0);
}

#[test]
fn status_counts_live_children_in_order() {
    let mut config = Config::new();
    config.insert("first".to_string(), program("/bin/true", 2));
    config.insert("second".to_string(), program("/bin/true", 1));
    let mut registry = Registry::new();
    apply_config(&config, &mut registry);
    registry.register_child("first", 1, 0);
    registry.register_child("first", 2, 0);
    registry.register_child("second", 3, 0);
    assert_eq!(
        registry.status(),
        vec![("first".to_string(), 2), ("second".to_string(), 1)]
    );
    assert_eq!(registry.name_at(1), "second");
    assert_eq!(registry.job_at(0).children.len(), 2);
}

#[test]
fn autostart_and_healthy() {
    let mut sleeper = program("/bin/sleep", 2);
    sleeper.args = vec!["30".to_string()];
    sleeper.starttime = 1;
    let mut config = Config::new();
    config.insert("sleeper".to_string(), sleeper);
    let mut registry = Registry::new();
    let plan = apply_config(&config, &mut registry);
    assert!(plan.stops.is_empty());
    assert_eq!(plan.launches.len(), 1);
    assert_eq!(plan.launches[0].name, "sleeper");
    assert_eq!(plan.launches[0].first_index, 0);
    assert_eq!(plan.launches[0].count, 2);
    registry.register_child("sleeper", 100, 10);
    registry.register_child("sleeper", 101, 10);
    assert_eq!(registry.status(), vec![("sleeper".to_string(), 2)]);
    assert!(!registry.mark_healthy(100, 10));
    assert!(registry.mark_healthy(100, 11));
    assert!(registry.mark_healthy(101, 12));
    assert!(!registry.mark_healthy(101, 13));
    let job = registry.job("sleeper").unwrap();
    assert_eq!(job.children[0].state, ChildState::Running);
    assert_eq!(job.children[1].state, ChildState::Running);
    let first = registry.handle_child_exit(100, 0).unwrap();
    assert_eq!(first.verdict, ExitVerdict::Finished);
    assert!(!first.during_startup);
    let second = registry.handle_child_exit(101, 0).unwrap();
    assert_eq!(second.verdict, ExitVerdict::Finished);
    assert_eq!(registry.status(), vec![("sleeper".to_string(), 0)]);
}

#[test]
fn mark_healthy_ignores_unknown_pid_and_early_clock() {
    let mut slow = program("/bin/sleep", 1);
    slow.starttime = 5;
    let mut registry = registry_with("slow", slow);
    registry.register_child("slow", 50, 100);
    assert!(!registry.mark_healthy(51, 1000));
    assert!(!registry.mark_healthy(50, 99));
    assert!(!registry.mark_healthy(50, 104));
    assert_eq!(registry.job("slow").unwrap().children[0].state, ChildState::Starting);
    assert!(registry.mark_healthy(50, 105));
    assert_eq!(registry.job("slow").unwrap().children[0].state, ChildState::Running);
}

#[test]
fn crash_loop_within_start_retries() {
    let mut failing = program("/bin/false", 1);
    failing.autorestart = RestartPolicy::Unexpected;
    failing.exitcodes = OneOrMany::Many(vec![0]);
    failing.starttime = 1;
    failing.startretries = 3;
    let mut registry = registry_with("failing", failing);
    let mut launched = 0;
    let mut pid = 1000;
    registry.register_child("failing", pid, 0);
    launched += 1;
    loop {
        let report = registry.handle_child_exit(pid, 1).unwrap();
        assert_eq!(report.name, "failing");
        assert!(report.during_startup);
        assert_eq!(report.child.state, ChildState::Exited);
        assert_eq!(report.child.pid, pid);
        match report.verdict {
            ExitVerdict::Respawn => {
                pid += 1;
                assert!(matches!(
                    registry.register_child("failing", pid, 0),
                    Registration::Registered(_)
                ));
                launched += 1;
            }
            ExitVerdict::RetryLimit => break,
            ExitVerdict::Finished => panic!("a crash must not count as expected"),
        }
    }
    assert_eq!(launched, 4);
    let job = registry.job("failing").unwrap();
    assert_eq!(job.children.len(), 0);
    assert_eq!(job.retries_left, 0);
}

#[test]
fn early_exit_causes_respawn() {
    let mut script = program("./scripts/exit-zero.sh", 1);
    script.autorestart = RestartPolicy::Unexpected;
    script.exitcodes = OneOrMany::One(0);
    script.startretries = 3;
    script.starttime = 2;
    script.stoptime = 1;
    let mut registry = registry_with("p", script);
    registry.register_child("p", 500, 0);
    let report = registry.handle_child_exit(500, 1).unwrap();
    assert!(report.during_startup);
    assert_eq!(report.verdict, ExitVerdict::Respawn);
    assert_eq!(report.retries_left, 2);
    registry.register_child("p", 501, 1);
    assert_eq!(registry.job("p").unwrap().children.len(), 1);
}

#[test]
fn expected_exit_is_not_restarted_and_costs_no_retry() {
    let mut worker = program("/bin/true", 1);
    worker.autorestart = RestartPolicy::Unexpected;
    worker.exitcodes = OneOrMany::Many(vec![0, 2]);
    worker.startretries = 2;
    let mut registry = registry_with("worker", worker);
    registry.register_child("worker", 5, 0);
    let report = registry.handle_child_exit(5, 2).unwrap();
    assert_eq!(report.verdict, ExitVerdict::Finished);
    assert_eq!(report.retries_left, 2);
    assert_eq!(registry.job("worker").unwrap().retries_left, 2);
}

#[test]
fn always_policy_respawns_until_retries_run_out() {
    let mut worker = program("/bin/true", 1);
    worker.autorestart = RestartPolicy::Always;
    worker.startretries = 1;
    let mut registry = registry_with("worker", worker);
    registry.register_child("worker", 5, 0);
    let first = registry.handle_child_exit(5, 0).unwrap();
    assert_eq!(first.verdict, ExitVerdict::Respawn);
    assert_eq!(first.retries_left, 0);
    registry.register_child("worker", 6, 0);
    let second = registry.handle_child_exit(6, 0).unwrap();
    assert_eq!(second.verdict, ExitVerdict::RetryLimit);
    assert_eq!(second.retries_left, 0);
}

#[test]
fn a_record_is_removed_exactly_once() {
    let mut worker = program("/bin/true", 2);
    worker.autorestart = RestartPolicy::Always;
    worker.startretries = 5;
    let mut registry = registry_with("worker", worker);
    registry.register_child("worker", 21, 0);
    registry.register_child("worker", 22, 0);
    assert!(registry.handle_child_exit(21, 1).is_some());
    assert_eq!(registry.locate(21), None);
    assert!(registry.handle_child_exit(21, 1).is_none());
    assert!(registry.handle_child_exit(21, 7).is_none());
    let job = registry.job("worker").unwrap();
    assert_eq!(job.retries_left, 4);
    assert_eq!(job.children.len(), 1);
    assert_eq!(job.children[0].pid, 22);
}

#[test]
fn exit_of_unknown_pid_changes_nothing() {
    let mut registry = registry_with("worker", program("/bin/true", 1));
    registry.register_child("worker", 1, 0);
    assert!(registry.handle_child_exit(2, 0).is_none());
    assert_eq!(registry.status(), vec![("worker".to_string(), 1)]);
}

#[test]
fn reap_children_encodes_signals_as_exit_codes() {
    let mut worker = program("/bin/true", 1);
    worker.autorestart = RestartPolicy::Unexpected;
    worker.exitcodes = OneOrMany::One(143);
    worker.startretries = 1;
    let mut registry = registry_with("worker", worker);
    registry.register_child("worker", 30, 0);
    let by_term = reap_children(WaitReport::Signaled { pid: 30, signal: 15 }, &mut registry);
    assert!(by_term.poll_again);
    assert_eq!(by_term.outcome.unwrap().verdict, ExitVerdict::Finished);
    registry.register_child("worker", 31, 0);
    let by_kill = reap_children(WaitReport::Signaled { pid: 31, signal: 9 }, &mut registry);
    assert_eq!(by_kill.outcome.unwrap().verdict, ExitVerdict::Respawn);
}

#[test]
fn reap_children_handles_plain_exits() {
    let mut worker = program("/bin/true", 1);
    worker.autorestart = RestartPolicy::Unexpected;
    worker.startretries = 1;
    let mut registry = registry_with("worker", worker);
    registry.register_child("worker", 40, 0);
    let reaped = reap_children(WaitReport::Exited { pid: 40, code: 3 }, &mut registry);
    assert!(reaped.poll_again);
    let report = reaped.outcome.unwrap();
    assert_eq!(report.verdict, ExitVerdict::Respawn);
    assert_eq!(report.name, "worker");
    assert_eq!(registry.job("worker").unwrap().children.len(), 0);
}

#[test]
fn reap_children_leaves_registry_alone_without_an_exit() {
    let mut registry = registry_with("worker", program("/bin/true", 1));
    registry.register_child("worker", 40, 0);
    assert_eq!(
        reap_children(WaitReport::StillAlive, &mut registry),
        Reaped { outcome: None, poll_again: false }
    );
    assert_eq!(
        reap_children(WaitReport::Failed, &mut registry),
        Reaped { outcome: None, poll_again: false }
    );
    assert_eq!(
        reap_children(WaitReport::Stopped { pid: 40 }, &mut registry),
        Reaped { outcome: None, poll_again: true }
    );
    assert_eq!(
        reap_children(WaitReport::Continued { pid: 40 }, &mut registry),
        Reaped { outcome: None, poll_again: true }
    );
    assert_eq!(registry.status(), vec![("worker".to_string(), 1)]);
}

#[test]
fn respawn_orders_one_replacement_after_the_children_left() {
    let mut worker = program("/bin/true", 3);
    worker.autorestart = RestartPolicy::Always;
    worker.startretries = 1;
    let mut registry = registry_with("worker", worker);
    registry.register_child("worker", 1, 0);
    registry.register_child("worker", 2, 0);
    registry.register_child("worker", 3, 0);
    let first = registry.handle_child_exit(2, 1).unwrap();
    assert_eq!(first.children_left, 2);
    assert_eq!(
        respawn_order(&first),
        Some(LaunchOrder { name: "worker".to_string(), first_index: 2, count: 1 })
    );
    let second = registry.handle_child_exit(1, 1).unwrap();
    assert_eq!(second.verdict, ExitVerdict::RetryLimit);
    assert_eq!(second.children_left, 1);
    assert_eq!(respawn_order(&second), None);
}

#[test]
fn finished_exit_orders_no_replacement() {
    let mut registry = registry_with("worker", program("/bin/true", 1));
    registry.register_child("worker", 1, 0);
    let report = registry.handle_child_exit(1, 0).unwrap();
    assert_eq!(report.verdict, ExitVerdict::Finished);
    assert_eq!(report.children_left, 0);
    assert_eq!(respawn_order(&report), None);
}
