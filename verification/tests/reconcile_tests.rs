use supervisor::{
    apply_config, ChildState, Config, OneOrMany, ProgramConfig, Registry, RestartPolicy,
    StopSignal,
};

fn program(cmd: &str, numprocs: usize) -> ProgramConfig {
    ProgramConfig {
        cmd: cmd.to_string(),
        args: vec![],
        numprocs,
        umask: None,
        workingdir: None,
        autostart: true,
        autorestart: RestartPolicy::Never,
        exitcodes: OneOrMany::One(0),
        startretries: 0,
        starttime: 0,
        stopsignal: "TERM".to_string(),
        stoptime: 0,
        stdout: None,
        stderr: None,
        env: None,
    }
}

fn config_of(entries: Vec<(&str, ProgramConfig)>) -> Config {
    let mut config = Config::new();
    for (name, program) in entries {
        config.insert(name.to_string(), program);
    }
    config
}

fn launch_all(registry: &mut Registry, name: &str, first_pid: i32, count: usize) {
    for i in 0..count {
        registry.register_child(name, first_pid + i as i32, 0);
    }
}

#[test]
fn scale_up_on_reload() {
    let mut web = program("/bin/web", 1);
    web.autorestart = RestartPolicy::Always;
    web.startretries = 2;
    let mut registry = Registry::new();
    let first = apply_config(&config_of(vec![("web", web.clone())]), &mut registry);
    assert_eq!(first.launches[0].count, 1);
    launch_all(&mut registry, "web", 10, 1);
    registry.handle_child_exit(10, 1);
    launch_all(&mut registry, "web", 11, 1);
    assert_eq!(registry.job("web").unwrap().retries_left, 1);

    web.numprocs = 3;
    let plan = apply_config(&config_of(vec![("web", web)]), &mut registry);
    assert!(plan.stops.is_empty());
    assert_eq!(plan.launches.len(), 1);
    assert_eq!(plan.launches[0].name, "web");
    assert_eq!(plan.launches[0].first_index, 1);
    assert_eq!(plan.launches[0].count, 2);
    launch_all(&mut registry, "web", 20, 2);
    let job = registry.job("web").unwrap();
    assert_eq!(job.children.len(), 3);
    assert_eq!(job.children[0].pid, 11);
    assert_eq!(job.retries_left, 2);
    assert_eq!(job.config.numprocs, 3);
}

#[test]
fn reload_converges_to_declared_counts() {
    let mut registry = Registry::new();
    let before = config_of(vec![("a", program("/bin/a", 2)), ("b", program("/bin/b", 4))]);
    let plan = apply_config(&before, &mut registry);
    for order in &plan.launches {
        let base = if order.name == "a" { 100 } else { 200 };
        launch_all(&mut registry, &order.name, base, order.count);
    }
    let after = config_of(vec![
        ("b", program("/bin/b", 1)),
        ("a", program("/bin/a", 5)),
        ("c", program("/bin/c", 3)),
    ]);
    let plan = apply_config(&after, &mut registry);
    for order in &plan.launches {
        let base = if order.name == "a" { 300 } else { 400 };
        launch_all(&mut registry, &order.name, base, order.count);
    }
    assert_eq!(
        registry.status(),
        vec![("b".to_string(), 1), ("a".to_string(), 5), ("c".to_string(), 3)]
    );
    assert_eq!(plan.stops.len(), 3);
}

#[test]
fn changed_replica_count_grants_the_respawns_anew() {
    let mut web = program("/bin/web", 3);
    web.autorestart = RestartPolicy::Always;
    web.startretries = 2;
    let mut registry = Registry::new();
    apply_config(&config_of(vec![("web", web.clone())]), &mut registry);
    launch_all(&mut registry, "web", 10, 3);
    registry.handle_child_exit(12, 1);
    assert_eq!(registry.job("web").unwrap().retries_left, 1);
    web.numprocs = 2;
    let plan = apply_config(&config_of(vec![("web", web)]), &mut registry);
    assert!(plan.stops.is_empty());
    assert!(plan.launches.is_empty());
    assert_eq!(registry.job("web").unwrap().retries_left, 2);
}

#[test]
fn group_signal_reaches_grandchild() {
    let mut script = program("/bin/sh", 1);
    script.args = vec!["-c".to_string(), "sleep 1000 & sleep 1000".to_string()];
    script.stoptime = 1;
    let mut registry = Registry::new();
    apply_config(&config_of(vec![("script", script.clone())]), &mut registry);
    assert_eq!(supervisor::spawn_processes(&script)[0], supervisor::LaunchStep::NewSession);
    registry.register_child("script", 321, 0);
    let stops = supervisor::stop_program("script", &mut registry).unwrap();
    assert_eq!(stops.len(), 1);
    assert_eq!(stops[0].child.pid, 321);
    assert_eq!(stops[0].child.group_id, 321);
    assert_eq!(stops[0].signal, StopSignal::Term);
}

#[test]
fn scale_down_stops_the_last_children() {
    let mut web = program("/bin/web", 3);
    web.stopsignal = "quit".to_string();
    web.stoptime = 7;
    let mut registry = Registry::new();
    apply_config(&config_of(vec![("web", web.clone())]), &mut registry);
    launch_all(&mut registry, "web", 10, 3);
    web.numprocs = 1;
    let plan = apply_config(&config_of(vec![("web", web)]), &mut registry);
    assert!(plan.launches.is_empty());
    assert_eq!(plan.stops.len(), 2);
    assert_eq!(plan.stops[0].child.pid, 11);
    assert_eq!(plan.stops[1].child.pid, 12);
    for stop in &plan.stops {
        assert_eq!(stop.name, "web");
        assert_eq!(stop.child.state, ChildState::Stopping);
        assert_eq!(stop.child.group_id, stop.child.pid);
        assert_eq!(stop.signal, StopSignal::Quit);
        assert_eq!(stop.stoptime, 7);
    }
    let job = registry.job("web").unwrap();
    assert_eq!(job.children.len(), 1);
    assert_eq!(job.children[0].pid, 10);
}

#[test]
fn material_change_replaces_every_child() {
    let mut web = program("/bin/web", 2);
    web.autorestart = RestartPolicy::Always;
    web.startretries = 3;
    web.stoptime = 2;
    let mut registry = Registry::new();
    apply_config(&config_of(vec![("web", web.clone())]), &mut registry);
    launch_all(&mut registry, "web", 10, 2);
    registry.handle_child_exit(10, 1);
    launch_all(&mut registry, "web", 12, 1);
    assert_eq!(registry.job("web").unwrap().retries_left, 2);

    web.args = vec!["--verbose".to_string()];
    web.stoptime = 9;
    web.startretries = 5;
    let plan = apply_config(&config_of(vec![("web", web.clone())]), &mut registry);
    assert_eq!(plan.stops.len(), 2);
    assert_eq!(plan.stops[0].child.pid, 11);
    assert_eq!(plan.stops[1].child.pid, 12);
    assert_eq!(plan.stops[0].stoptime, 2);
    assert_eq!(plan.launches.len(), 1);
    assert_eq!(plan.launches[0].first_index, 0);
    assert_eq!(plan.launches[0].count, 2);
    let job = registry.job("web").unwrap();
    assert!(job.children.is_empty());
    assert_eq!(job.retries_left, 5);
    assert_eq!(job.config, web);
}

#[test]
fn vanished_program_is_stopped_and_removed() {
    let mut registry = Registry::new();
    let mut old = program("/bin/old", 2);
    old.stopsignal = "INT".to_string();
    old.stoptime = 4;
    apply_config(
        &config_of(vec![("old", old), ("kept", program("/bin/kept", 1))]),
        &mut registry,
    );
    launch_all(&mut registry, "old", 10, 2);
    launch_all(&mut registry, "kept", 20, 1);
    let plan = apply_config(&config_of(vec![("kept", program("/bin/kept", 1))]), &mut registry);
    assert!(plan.launches.is_empty());
    assert_eq!(plan.stops.len(), 2);
    assert_eq!(plan.stops[0].name, "old");
    assert_eq!(plan.stops[0].child.pid, 10);
    assert_eq!(plan.stops[1].child.pid, 11);
    assert_eq!(plan.stops[0].signal, StopSignal::Int);
    assert_eq!(plan.stops[0].stoptime, 4);
    assert!(registry.job("old").is_none());
    assert_eq!(registry.status(), vec![("kept".to_string(), 1)]);
    assert!(registry.handle_child_exit(10, 0).is_none());
}

#[test]
fn unchanged_program_is_left_alone() {
    let mut web = program("/bin/web", 2);
    web.autorestart = RestartPolicy::Always;
    web.startretries = 4;
    let mut registry = Registry::new();
    apply_config(&config_of(vec![("web", web.clone())]), &mut registry);
    launch_all(&mut registry, "web", 10, 2);
    registry.handle_child_exit(11, 1);
    launch_all(&mut registry, "web", 12, 1);
    let plan = apply_config(&config_of(vec![("web", web)]), &mut registry);
    assert!(plan.stops.is_empty());
    assert!(plan.launches.is_empty());
    let job = registry.job("web").unwrap();
    assert_eq!(job.children.len(), 2);
    assert_eq!(job.retries_left, 3);
}

#[test]
fn reload_tops_up_a_job_that_ran_out_of_retries() {
    let mut web = program("/bin/web", 2);
    web.autorestart = RestartPolicy::Always;
    web.startretries = 1;
    let mut registry = Registry::new();
    apply_config(&config_of(vec![("web", web.clone())]), &mut registry);
    launch_all(&mut registry, "web", 10, 2);
    registry.handle_child_exit(10, 1);
    registry.handle_child_exit(11, 1);
    assert_eq!(registry.job("web").unwrap().retries_left, 0);
    let plan = apply_config(&config_of(vec![("web", web)]), &mut registry);
    assert_eq!(plan.launches.len(), 1);
    assert_eq!(plan.launches[0].count, 2);
    assert_eq!(registry.job("web").unwrap().retries_left, 1);
}

#[test]
fn program_without_autostart_gets_a_job_but_no_launch() {
    let mut manual = program("/bin/manual", 3);
    manual.autostart = false;
    manual.startretries = 2;
    let mut registry = Registry::new();
    let plan = apply_config(&config_of(vec![("manual", manual)]), &mut registry);
    assert!(plan.stops.is_empty());
    assert!(plan.launches.is_empty());
    let job = registry.job("manual").unwrap();
    assert!(job.children.is_empty());
    assert_eq!(job.retries_left, 2);
}

#[test]
fn program_with_no_replicas_is_not_launched() {
    let mut registry = Registry::new();
    let plan = apply_config(&config_of(vec![("idle", program("/bin/idle", 0))]), &mut registry);
    assert!(plan.launches.is_empty());
    assert_eq!(registry.status(), vec![("idle".to_string(), 0)]);
}

#[test]
fn empty_configuration_clears_the_registry() {
    let mut registry = Registry::new();
    apply_config(&config_of(vec![("a", program("/bin/a", 1))]), &mut registry);
    launch_all(&mut registry, "a", 1, 1);
    let plan = apply_config(&Config::new(), &mut registry);
    assert_eq!(plan.stops.len(), 1);
    assert_eq!(registry.len(), 0);
}
