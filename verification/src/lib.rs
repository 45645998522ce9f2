//! Core of a process supervisor: the declared configuration, the registry of
//! running jobs, and the decisions that keep the two in step.
//!
//! The library starts, signals and awaits no process itself. Every operation
//! takes the observed facts as plain values and answers with the new state
//! and the orders to carry out (launch, signal, wait); the program around it
//! performs them and reports back.

pub mod control;
pub mod launch;
pub mod parse;
pub mod reconcile;
pub mod runtime;
pub mod shell;
pub mod signal;
pub mod table;
pub mod text;

pub use control::{
    start_program, stop_and_cleanup_pid, stop_program, PollResult, StopEnding, StopPhase,
};
pub use launch::{spawn_processes, LaunchFault, LaunchStep, Redirect};
pub use parse::{
    default_autorestart, default_autostart, default_exitcodes, Config, OneOrMany, ProgramConfig,
    ProgramSpec, RestartPolicy,
};
pub use reconcile::{apply_config, respawn_order, LaunchOrder, ReconcilePlan, StopOrder};
pub use runtime::{
    reap_children, should_restart, ChildRecord, ChildState, ExitOutcome, ExitVerdict, Reaped,
    Registration, Registry, RuntimeJob, WaitReport,
};
pub use shell::{complete, last_lines, log_path, parse_command, Command};
pub use signal::StopSignal;
