use supervisor::{
    apply_config, start_program, stop_and_cleanup_pid, stop_program, ChildRecord, ChildState,
    Config, OneOrMany, PollResult, ProgramConfig, Registry, RestartPolicy, StopEnding, StopOrder,
    StopPhase, StopSignal,
};

fn program(cmd: &str, numprocs: usize) -> ProgramConfig {
    ProgramConfig {
        cmd: cmd.to_string(),
        args: vec![],
        numprocs,
        umask: None,
        workingdir: None,
        autostart: true,
        autorestart: RestartPolicy::Never,
        exitcodes: OneOrMany::One(0),
        startretries: 0,
        starttime: 0,
        stopsignal: "TERM".to_string(),
        stoptime: 0,
        stdout: None,
        stderr: None,
        env: None,
    }
}

fn order(stoptime: usize) -> StopOrder {
    StopOrder {
        name: "job".to_string(),
        child: ChildRecord { pid: 77, group_id: 77, state: ChildState::Stopping, started_at: 0 },
        signal: StopSignal::Term,
        stoptime,
    }
}

/// Runs a stop to its end against a child that exits after `exits_after`
/// polls, or never; returns the phases gone through.
fn run_stop(order: &StopOrder, exits_after: Option<usize>) -> Vec<StopPhase> {
    let mut phases = vec![StopPhase::Signal];
    let mut phase = StopPhase::Signal;
    let mut polls = 0;
    for _ in 0..10_000 {
        let poll = match phase {
            StopPhase::Poll { .. } => {
                polls += 1;
                match exits_after {
                    Some(n) if polls > n => PollResult::Exited,
                    _ => PollResult::StillAlive,
                }
            }
            _ => PollResult::StillAlive,
        };
        phase = stop_and_cleanup_pid(order, phase, poll);
        phases.push(phase);
        if matches!(phase, StopPhase::Done(_)) {
            return phases;
        }
    }
    panic!("the stop did not end");
}

#[test]
fn graceful_stop_within_window() {
    let phases = run_stop(&order(5), Some(2));
    assert_eq!(
        phases,
        vec![
            StopPhase::Signal,
            StopPhase::Poll { elapsed_ms: 0 },
            StopPhase::Sleep { elapsed_ms: 0 },
            StopPhase::Poll { elapsed_ms: 100 },
            StopPhase::Sleep { elapsed_ms: 100 },
            StopPhase::Poll { elapsed_ms: 200 },
            StopPhase::Done(StopEnding::Clean),
        ]
    );
    assert!(!phases.contains(&StopPhase::Kill));
}

#[test]
fn forced_stop_after_timeout() {
    let phases = run_stop(&order(1), None);
    let polls = phases.iter().filter(|p| matches!(p, StopPhase::Poll { .. })).count();
    assert_eq!(polls, 10);
    assert_eq!(phases[phases.len() - 4], StopPhase::Sleep { elapsed_ms: 900 });
    assert_eq!(phases[phases.len() - 3], StopPhase::Kill);
    assert_eq!(phases[phases.len() - 2], StopPhase::Reap);
    assert_eq!(phases[phases.len() - 1], StopPhase::Done(StopEnding::Killed));
}

#[test]
fn stop_without_window_kills_at_once() {
    let phases = run_stop(&order(0), None);
    assert_eq!(
        phases,
        vec![
            StopPhase::Signal,
            StopPhase::Kill,
            StopPhase::Reap,
            StopPhase::Done(StopEnding::Killed),
        ]
    );
}

#[test]
fn failed_poll_ends_the_stop() {
    let stop = order(3);
    let next = stop_and_cleanup_pid(&stop, StopPhase::Poll { elapsed_ms: 400 }, PollResult::Failed);
    assert_eq!(next, StopPhase::Done(StopEnding::Lost));
}

#[test]
fn finished_stop_stays_finished() {
    let stop = order(3);
    for ending in [StopEnding::Clean, StopEnding::Killed, StopEnding::Lost] {
        let next = stop_and_cleanup_pid(&stop, StopPhase::Done(ending), PollResult::StillAlive);
        assert_eq!(next, StopPhase::Done(ending));
    }
}

#[test]
fn sleep_past_the_window_leads_to_kill() {
    let stop = order(1);
    assert_eq!(
        stop_and_cleanup_pid(&stop, StopPhase::Sleep { elapsed_ms: 899 }, PollResult::StillAlive),
        StopPhase::Poll { elapsed_ms: 999 }
    );
    assert_eq!(
        stop_and_cleanup_pid(&stop, StopPhase::Sleep { elapsed_ms: 900 }, PollResult::StillAlive),
        StopPhase::Kill
    );
    assert_eq!(
        stop_and_cleanup_pid(&stop, StopPhase::Sleep { elapsed_ms: u128::MAX }, PollResult::Exited),
        StopPhase::Kill
    );
}

#[test]
fn stop_program_empties_the_job_and_keeps_its_spec() {
    let mut web = program("/bin/web", 2);
    web.stopsignal = "usr1".to_string();
    web.stoptime = 3;
    web.startretries = 2;
    let mut config = Config::new();
    config.insert("web".to_string(), web.clone());
    let mut registry = Registry::new();
    apply_config(&config, &mut registry);
    registry.register_child("web", 10, 0);
    registry.register_child("web", 11, 0);
    let stops = stop_program("web", &mut registry).unwrap();
    assert_eq!(stops.len(), 2);
    assert_eq!(stops[0].child.pid, 10);
    assert_eq!(stops[1].child.pid, 11);
    for stop in &stops {
        assert_eq!(stop.name, "web");
        assert_eq!(stop.child.group_id, stop.child.pid);
        assert_eq!(stop.child.state, ChildState::Stopping);
        assert_eq!(stop.signal, StopSignal::Usr1);
        assert_eq!(stop.stoptime, 3);
    }
    let job = registry.job("web").unwrap();
    assert!(job.children.is_empty());
    assert_eq!(job.config, web);
    assert_eq!(job.retries_left, 2);
    assert!(registry.handle_child_exit(10, 0).is_none());
}

#[test]
fn stop_program_of_unknown_name_changes_nothing() {
    let mut config = Config::new();
    config.insert("web".to_string(), program("/bin/web", 1));
    let mut registry = Registry::new();
    apply_config(&config, &mut registry);
    registry.register_child("web", 10, 0);
    assert!(stop_program("db", &mut registry).is_none());
    assert_eq!(registry.status(), vec![("web".to_string(), 1)]);
}

#[test]
fn start_program_appends_and_resets_retries() {
    let mut web = program("/bin/web", 2);
    web.autorestart = RestartPolicy::Always;
    web.startretries = 3;
    let mut config = Config::new();
    config.insert("web".to_string(), web);
    let mut registry = Registry::new();
    apply_config(&config, &mut registry);
    registry.register_child("web", 10, 0);
    registry.register_child("web", 11, 0);
    registry.handle_child_exit(11, 1);
    assert_eq!(registry.job("web").unwrap().retries_left, 2);
    let launch = start_program("web", &config, &mut registry).unwrap();
    assert_eq!(launch.name, "web");
    assert_eq!(launch.first_index, 1);
    assert_eq!(launch.count, 2);
    let job = registry.job("web").unwrap();
    assert_eq!(job.retries_left, 3);
    assert_eq!(job.children.len(), 1);
}

#[test]
fn start_program_takes_count_and_retries_from_the_configuration() {
    let mut web = program("/bin/web", 1);
    web.autorestart = RestartPolicy::Always;
    web.startretries = 1;
    let mut applied = Config::new();
    applied.insert("web".to_string(), web.clone());
    applied.insert("db".to_string(), program("/bin/db", 1));
    let mut registry = Registry::new();
    apply_config(&applied, &mut registry);
    registry.register_child("web", 10, 0);
    registry.register_child("db", 20, 0);
    registry.handle_child_exit(10, 1);
    registry.register_child("web", 11, 0);
    assert_eq!(registry.job("web").unwrap().retries_left, 0);

    web.numprocs = 3;
    web.startretries = 5;
    web.args = vec!["--fast".to_string()];
    let mut declared = Config::new();
    declared.insert("web".to_string(), web.clone());
    let launch = start_program("web", &declared, &mut registry).unwrap();
    assert_eq!(launch.name, "web");
    assert_eq!(launch.first_index, 1);
    assert_eq!(launch.count, 3);
    let job = registry.job("web").unwrap();
    assert_eq!(job.config, web);
    assert_eq!(job.retries_left, 5);
    assert_eq!(job.children.len(), 1);
    assert_eq!(job.children[0].pid, 11);
    assert_eq!(registry.status(), vec![("web".to_string(), 1), ("db".to_string(), 1)]);
    assert_eq!(registry.job("db").unwrap().config, program("/bin/db", 1));
}

#[test]
fn start_program_with_no_replicas_orders_none() {
    let mut config = Config::new();
    config.insert("idle".to_string(), program("/bin/idle", 0));
    let mut registry = Registry::new();
    let launch = start_program("idle", &config, &mut registry).unwrap();
    assert_eq!(launch.count, 0);
    assert_eq!(launch.first_index, 0);
}

#[test]
fn start_program_creates_a_missing_job() {
    let mut manual = program("/bin/manual", 2);
    manual.autostart = false;
    manual.startretries = 4;
    let mut config = Config::new();
    config.insert("manual".to_string(), manual.clone());
    let mut registry = Registry::new();
    let launch = start_program("manual", &config, &mut registry).unwrap();
    assert_eq!(launch.first_index, 0);
    assert_eq!(launch.count, 2);
    let job = registry.job("manual").unwrap();
    assert_eq!(job.config, manual);
    assert_eq!(job.retries_left, 4);
    assert!(job.children.is_empty());
}

#[test]
fn start_program_of_undeclared_name_changes_nothing() {
    let mut config = Config::new();
    config.insert("web".to_string(), program("/bin/web", 1));
    let mut registry = Registry::new();
    assert!(start_program("db", &config, &mut registry).is_none());
    assert_eq!(registry.len(), 0);
}

#[test]
fn stop_then_start_reuses_the_spec() {
    let mut config = Config::new();
    config.insert("web".to_string(), program("/bin/web", 2));
    let mut registry = Registry::new();
    apply_config(&config, &mut registry);
    registry.register_child("web", 10, 0);
    registry.register_child("web", 11, 0);
    stop_program("web", &mut registry);
    let launch = start_program("web", &config, &mut registry).unwrap();
    assert_eq!(launch.first_index, 0);
    assert_eq!(launch.count, 2);
}
