//! The launcher's plan: what a new child does, step by step, before the
//! program itself runs.

use vstd::prelude::*;
use crate::parse::{ProgramConfig, ProgramSpec};
use crate::text::{octal_number, parse_octal, same_text};

verus! {

/// Where an output stream of a child goes.
#[derive(Debug, PartialEq, Eq)]
pub enum Redirect {
    /// To the null device.
    Null,
    /// To the file at this path, opened for appending and created, with
    /// the directories above it, if it is not there.
    Append(String),
}

/// The mathematical content of a [`Redirect`].
pub enum RedirectView {
    Null,
    Append(Seq<char>),
}

impl DeepView for Redirect {
    type V = RedirectView;

    open spec fn deep_view(&self) -> RedirectView {
        match self {
            Redirect::Null => RedirectView::Null,
            Redirect::Append(path) => RedirectView::Append(path@),
        }
    }
}

/// Why a child gives up before it runs its program.
#[derive(Debug, Clone, Copy, PartialEq, Eq, Structural)]
pub enum LaunchFault {
    /// The declared file-creation mask is no octal number.
    InvalidUmask,
}

/// One step of a new child, between its creation and its program.
#[derive(Debug, PartialEq, Eq)]
pub enum LaunchStep {
    /// Become the leader of a new session and process group.
    NewSession,
    /// Change the working directory.
    ChangeDir(String),
    /// Set the file-creation mask to these mode bits.
    SetUmask(u32),
    /// Export a variable, by name and value.
    SetEnv(String, String),
    /// Read standard input from the null device.
    RedirectStdin,
    /// Send standard output there.
    RedirectStdout(Redirect),
    /// Send standard error there.
    RedirectStderr(Redirect),
    /// Run the program: the first argument is the command itself.
    Exec(Vec<String>),
    /// Report the fault and exit with a nonzero status.
    Abort(LaunchFault),
}

/// The mathematical content of a [`LaunchStep`].
pub enum LaunchStepView {
    NewSession,
    ChangeDir(Seq<char>),
    SetUmask(u32),
    SetEnv(Seq<char>, Seq<char>),
    RedirectStdin,
    RedirectStdout(RedirectView),
    RedirectStderr(RedirectView),
    Exec(Seq<Seq<char>>),
    Abort(LaunchFault),
}

impl DeepView for LaunchStep {
    type V = LaunchStepView;

    open spec fn deep_view(&self) -> LaunchStepView {
        match self {
            LaunchStep::NewSession => LaunchStepView::NewSession,
            LaunchStep::ChangeDir(dir) => LaunchStepView::ChangeDir(dir@),
            LaunchStep::SetUmask(bits) => LaunchStepView::SetUmask(*bits),
            LaunchStep::SetEnv(name, value) => LaunchStepView::SetEnv(name@, value@),
            LaunchStep::RedirectStdin => LaunchStepView::RedirectStdin,
            LaunchStep::RedirectStdout(to) => LaunchStepView::RedirectStdout(to.deep_view()),
            LaunchStep::RedirectStderr(to) => LaunchStepView::RedirectStderr(to.deep_view()),
            LaunchStep::Exec(argv) => LaunchStepView::Exec(argv.deep_view()),
            LaunchStep::Abort(fault) => LaunchStepView::Abort(*fault),
        }
    }
}

/// The permission bits that a file mode can hold.
pub const MODE_BITS: u32 = 0xfff;

/// `nix::sys::stat::Mode::from_bits_truncate`, read back with `bits`: of
/// the bits given, those that are file mode flags stay, which on this
/// platform are the twelve lowest.
#[verifier::external_body]
fn mode_bits(raw: u32) -> (bits: u32)
    ensures
        bits == raw & MODE_BITS,
{
    nix::sys::stat::Mode::from_bits_truncate(raw).bits()
}

/// Where a stream goes for a declared path: to the null device if none is
/// declared or the path is the word `null`, else to the file.
pub open spec fn redirect_for(path: Option<Seq<char>>) -> RedirectView {
    match path {
        None => RedirectView::Null,
        Some(to) => if to == "null"@ {
            RedirectView::Null
        } else {
            RedirectView::Append(to)
        },
    }
}

/// The steps that export the variables of `env`, in order.
pub open spec fn env_steps(env: Seq<(Seq<char>, Seq<char>)>) -> Seq<LaunchStepView> {
    Seq::new(env.len(), |i: int| LaunchStepView::SetEnv(env[i].0, env[i].1))
}

/// The first steps of every child: a session of its own, then its
/// working directory, if one is declared.
pub open spec fn opening_steps(program: ProgramSpec) -> Seq<LaunchStepView> {
    seq![LaunchStepView::NewSession] + match program.working_dir {
        Some(dir) => seq![LaunchStepView::ChangeDir(dir)],
        None => Seq::empty(),
    }
}

/// The steps from the exported variables to the program: variables,
/// standard input, output and error, then the program with the command as
/// its first argument.
pub open spec fn closing_steps(program: ProgramSpec) -> Seq<LaunchStepView> {
    env_steps(program.env) + seq![
        LaunchStepView::RedirectStdin,
        LaunchStepView::RedirectStdout(redirect_for(program.stdout_path)),
        LaunchStepView::RedirectStderr(redirect_for(program.stderr_path)),
        LaunchStepView::Exec(seq![program.command] + program.args),
    ]
}

/// What a child of `program` does, in order. A declared mask that is no
/// octal number ends the child where the mask would be set.
pub open spec fn launch_steps(program: ProgramSpec) -> Seq<LaunchStepView> {
    match program.umask {
        None => opening_steps(program) + closing_steps(program),
        Some(text) => match octal_number(text) {
            None => opening_steps(program).push(LaunchStepView::Abort(LaunchFault::InvalidUmask)),
            Some(raw) => opening_steps(program).push(LaunchStepView::SetUmask(raw & MODE_BITS))
                + closing_steps(program),
        },
    }
}

/// Every child begins by leading a session of its own, whatever its
/// program declares.
pub proof fn lemma_child_leads_session(program: ProgramSpec)
    ensures
        launch_steps(program).len() > 0,
        launch_steps(program)[0] == LaunchStepView::NewSession,
{
}

/// Where a stream goes for a declared path.
fn redirect(path: &Option<String>) -> (to: Redirect)
    ensures
        to.deep_view() == redirect_for(path.deep_view()),
{
    match path {
        None => Redirect::Null,
        Some(file) => if same_text(file.as_str(), "null") {
            Redirect::Null
        } else {
            Redirect::Append(file.clone())
        },
    }
}

/// The arguments of the program: the command, then the declared ones.
fn arguments(cfg: &ProgramConfig) -> (argv: Vec<String>)
    ensures
        argv.deep_view() == seq![cfg@.command] + cfg@.args,
{
    let mut argv: Vec<String> = Vec::new();
    argv.push(cfg.cmd.clone());
    let mut i: usize = 0;
    while i < cfg.args.len()
        invariant
            i <= cfg.args.len(),
            argv.len() == i + 1,
            argv[0]@ == cfg.cmd@,
            forall|j: int| 0 <= j < i ==> argv[j + 1]@ == cfg.args[j]@,
        decreases cfg.args.len() - i,
    {
        argv.push(cfg.args[i].clone());
        i += 1;
    }
    assert(argv.deep_view() =~= seq![cfg@.command] + cfg@.args);
    argv
}

/// Appends to `steps` the steps that export the declared variables.
fn push_env_steps(cfg: &ProgramConfig, steps: &mut Vec<LaunchStep>)
    ensures
        final(steps).deep_view() == old(steps).deep_view() + env_steps(cfg@.env),
{
    let ghost before = steps.deep_view();
    match &cfg.env {
        None => {
            assert(steps.deep_view() =~= before + env_steps(cfg@.env));
        },
        Some(pairs) => {
            let mut i: usize = 0;
            assert(steps.deep_view() =~= before + env_steps(pairs.deep_view()).take(0));
            while i < pairs.len()
                invariant
                    i <= pairs.len(),
                    steps.deep_view() == before + env_steps(pairs.deep_view()).take(i as int),
                decreases pairs.len() - i,
            {
                let ghost earlier = steps.deep_view();
                steps.push(LaunchStep::SetEnv(pairs[i].0.clone(), pairs[i].1.clone()));
                assert(steps.deep_view() =~= earlier.push(
                    LaunchStepView::SetEnv(pairs[i as int].0@, pairs[i as int].1@),
                ));
                assert(pairs.deep_view()[i as int] == (pairs[i as int].0@, pairs[i as int].1@));
                assert(steps.deep_view() =~= before + env_steps(pairs.deep_view()).take(i + 1));
                i += 1;
            }
            assert(env_steps(pairs.deep_view()).take(i as int) =~= env_steps(pairs.deep_view()));
        },
    }
}

/// Plans the processes of a program: the steps that each of them takes,
/// in order, from its creation to its program. The child first leads a
/// session of its own, so that it and its descendants can be signalled as
/// one group; then come working directory, file-creation mask, variables,
/// standard input, output and error, and the program.
pub fn spawn_processes(cfg: &ProgramConfig) -> (steps: Vec<LaunchStep>)
    ensures
        steps.deep_view() == launch_steps(cfg@),
{
    let mut steps: Vec<LaunchStep> = Vec::new();
    steps.push(LaunchStep::NewSession);
    assert(steps.deep_view() =~= seq![LaunchStepView::NewSession]);
    match &cfg.workingdir {
        Some(dir) => {
            steps.push(LaunchStep::ChangeDir(dir.clone()));
        },
        None => {},
    }
    assert(steps.deep_view() =~= opening_steps(cfg@));
    match &cfg.umask {
        None => {},
        Some(text) => match parse_octal(text.as_str()) {
            None => {
                steps.push(LaunchStep::Abort(LaunchFault::InvalidUmask));
                assert(steps.deep_view() =~= launch_steps(cfg@));
                return steps;
            },
            Some(raw) => {
                steps.push(LaunchStep::SetUmask(mode_bits(raw)));
            },
        },
    }
    let ghost head = steps.deep_view();
    assert(head =~= match cfg@.umask {
        None => opening_steps(cfg@),
        Some(text) => opening_steps(cfg@).push(
            LaunchStepView::SetUmask(octal_number(text)->0 & MODE_BITS),
        ),
    });
    push_env_steps(cfg, &mut steps);
    let ghost middle = steps.deep_view();
    steps.push(LaunchStep::RedirectStdin);
    steps.push(LaunchStep::RedirectStdout(redirect(&cfg.stdout)));
    steps.push(LaunchStep::RedirectStderr(redirect(&cfg.stderr)));
    steps.push(LaunchStep::Exec(arguments(cfg)));
    assert(steps.deep_view() =~= head + closing_steps(cfg@)) by {
        assert(steps.deep_view() =~= middle + seq![
            LaunchStepView::RedirectStdin,
            LaunchStepView::RedirectStdout(redirect_for(cfg@.stdout_path)),
            LaunchStepView::RedirectStderr(redirect_for(cfg@.stderr_path)),
            LaunchStepView::Exec(seq![cfg@.command] + cfg@.args),
        ]);
    }
    steps
}

} // verus!
