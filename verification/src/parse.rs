//! The declared configuration: programs and their policies.

use vstd::prelude::*;
use crate::table::{
    has_name, lemma_lookup_at, lemma_lookup_push, lemma_lookup_update, lookup, names_distinct,
    position_of, Name,
};
use crate::text::{same_optional_text, same_text, same_text_list};

verus! {

/// Either a single value or a list of values.
#[derive(Debug, Clone, PartialEq, Eq)]
pub enum OneOrMany<T> {
    One(T),
    Many(Vec<T>),
}

/// When an exited process is replaced.
#[derive(Debug, Clone, Copy, PartialEq, Eq, Structural)]
pub enum RestartPolicy {
    Always,
    Never,
    Unexpected,
}

impl OneOrMany<u32> {
    /// The codes as one list: a single code stands for the list that holds it alone.
    pub open spec fn codes(self) -> Seq<u32> {
        match self {
            OneOrMany::One(code) => seq![code],
            OneOrMany::Many(codes) => codes@,
        }
    }

    /// Whether `code` is one of the codes.
    pub fn lists(&self, code: u32) -> (found: bool)
        ensures
            found == self.codes().contains(code),
    {
        match self {
            OneOrMany::One(single) => {
                assert(seq![*single][0] == *single);
                *single == code
            },
            OneOrMany::Many(codes) => list_holds(codes, code),
        }
    }

    /// A copy with the same shape and the same codes.
    pub fn duplicate(&self) -> (copy: OneOrMany<u32>)
        ensures
            copy.codes() == self.codes(),
            copy is One == self is One,
    {
        match self {
            OneOrMany::One(single) => OneOrMany::One(*single),
            OneOrMany::Many(codes) => {
                let copied = codes.clone();
                assert(copied@ =~= codes@);
                OneOrMany::Many(copied)
            },
        }
    }

    /// Whether both stand for the same list of codes.
    pub fn same_codes(&self, other: &OneOrMany<u32>) -> (same: bool)
        ensures
            same == (self.codes() == other.codes()),
    {
        match (self, other) {
            (OneOrMany::One(a), OneOrMany::One(b)) => {
                assert(seq![*a][0] == *a && seq![*b][0] == *b);
                *a == *b
            },
            (OneOrMany::One(a), OneOrMany::Many(list)) => {
                assert(seq![*a][0] == *a);
                let same = list.len() == 1 && list[0] == *a;
                assert(same ==> seq![*a] =~= list@);
                same
            },
            (OneOrMany::Many(list), OneOrMany::One(b)) => {
                assert(seq![*b][0] == *b);
                let same = list.len() == 1 && list[0] == *b;
                assert(same ==> seq![*b] =~= list@);
                same
            },
            (OneOrMany::Many(x), OneOrMany::Many(y)) => same_code_list(x, y),
        }
    }
}

/// Whether `code` occurs in `codes`.
fn list_holds(codes: &Vec<u32>, code: u32) -> (found: bool)
    ensures
        found == codes@.contains(code),
{
    let mut i: usize = 0;
    while i < codes.len()
        invariant
            i <= codes.len(),
            forall|j: int| 0 <= j < i ==> codes@[j] != code,
        decreases codes.len() - i,
    {
        if codes[i] == code {
            return true;
        }
        i += 1;
    }
    false
}

/// Whether two lists hold the same codes in the same order.
fn same_code_list(x: &Vec<u32>, y: &Vec<u32>) -> (same: bool)
    ensures
        same == (x@ == y@),
{
    if x.len() != y.len() {
        return false;
    }
    let mut i: usize = 0;
    while i < x.len()
        invariant
            i <= x.len(),
            x.len() == y.len(),
            forall|j: int| 0 <= j < i ==> x@[j] == y@[j],
        decreases x.len() - i,
    {
        if x[i] != y[i] {
            return false;
        }
        i += 1;
    }
    assert(x@ =~= y@);
    true
}

/// The exit codes that count as expected when a program declares none.
pub fn default_exitcodes() -> (codes: OneOrMany<u32>)
    ensures
        codes == OneOrMany::<u32>::One(0),
{
    OneOrMany::One(0)
}

/// Whether a program starts with the supervisor when it does not say.
pub fn default_autostart() -> (autostart: bool)
    ensures
        autostart,
{
    true
}

/// The restart policy of a program that declares none.
pub fn default_autorestart() -> (policy: RestartPolicy)
    ensures
        policy == RestartPolicy::Never,
{
    RestartPolicy::Never
}

/// The declared description of one program, as the configuration document
/// gives it.
#[derive(Debug, PartialEq, Eq)]
pub struct ProgramConfig {
    pub cmd: String,
    pub args: Vec<String>,
    pub numprocs: usize,
    pub umask: Option<String>,
    pub workingdir: Option<String>,
    pub autostart: bool,
    pub autorestart: RestartPolicy,
    pub exitcodes: OneOrMany<u32>,
    pub startretries: usize,
    pub starttime: usize,
    pub stopsignal: String,
    pub stoptime: usize,
    pub stdout: Option<String>,
    pub stderr: Option<String>,
    /// Variables to export, in order; a later binding of a name overrides an
    /// earlier one.
    pub env: Option<Vec<(String, String)>>,
}

/// The mathematical content of a [`ProgramConfig`].
pub struct ProgramSpec {
    pub command: Seq<char>,
    pub args: Seq<Seq<char>>,
    pub num_procs: nat,
    pub working_dir: Option<Seq<char>>,
    pub env: Seq<(Seq<char>, Seq<char>)>,
    pub umask: Option<Seq<char>>,
    pub stdout_path: Option<Seq<char>>,
    pub stderr_path: Option<Seq<char>>,
    pub autostart: bool,
    pub restart_policy: RestartPolicy,
    pub expected_exit_codes: Seq<u32>,
    pub start_retries: nat,
    pub start_time: nat,
    pub stop_signal: Seq<char>,
    pub stop_time: nat,
}

impl ProgramSpec {
    /// The same program with another replica count.
    pub open spec fn with_count(self, count: nat) -> ProgramSpec {
        ProgramSpec { num_procs: count, ..self }
    }

    /// Whether `other` differs from this program in anything but the replica count.
    pub open spec fn differs_materially(self, other: ProgramSpec) -> bool {
        self.with_count(0) != other.with_count(0)
    }
}

/// The bindings of an optional variable list; none when the list is absent.
pub open spec fn bindings(env: Option<Vec<(String, String)>>) -> Seq<(Seq<char>, Seq<char>)> {
    match env {
        Some(pairs) => pairs.deep_view(),
        None => Seq::empty(),
    }
}

impl View for ProgramConfig {
    type V = ProgramSpec;

    open spec fn view(&self) -> ProgramSpec {
        ProgramSpec {
            command: self.cmd@,
            args: self.args.deep_view(),
            num_procs: self.numprocs as nat,
            working_dir: self.workingdir.deep_view(),
            env: bindings(self.env),
            umask: self.umask.deep_view(),
            stdout_path: self.stdout.deep_view(),
            stderr_path: self.stderr.deep_view(),
            autostart: self.autostart,
            restart_policy: self.autorestart,
            expected_exit_codes: self.exitcodes.codes(),
            start_retries: self.startretries as nat,
            start_time: self.starttime as nat,
            stop_signal: self.stopsignal@,
            stop_time: self.stoptime as nat,
        }
    }
}

/// A copy of an optional text.
fn copy_optional_text(text: &Option<String>) -> (copy: Option<String>)
    ensures
        copy.deep_view() == text.deep_view(),
{
    match text {
        Some(t) => Some(t.clone()),
        None => None,
    }
}

/// A copy of a list of texts.
fn copy_text_list(list: &Vec<String>) -> (copy: Vec<String>)
    ensures
        copy.deep_view() == list.deep_view(),
{
    let mut copy: Vec<String> = Vec::new();
    let mut i: usize = 0;
    while i < list.len()
        invariant
            i <= list.len(),
            copy.len() == i,
            forall|j: int| 0 <= j < i ==> copy[j]@ == list[j]@,
        decreases list.len() - i,
    {
        copy.push(list[i].clone());
        i += 1;
    }
    assert(copy.deep_view() =~= list.deep_view());
    copy
}

/// A copy of an optional variable list.
fn copy_bindings(env: &Option<Vec<(String, String)>>) -> (copy: Option<Vec<(String, String)>>)
    ensures
        bindings(copy) == bindings(*env),
        copy is Some == env is Some,
{
    match env {
        None => None,
        Some(pairs) => {
            let mut copy: Vec<(String, String)> = Vec::new();
            let mut i: usize = 0;
            while i < pairs.len()
                invariant
                    i <= pairs.len(),
                    copy.len() == i,
                    forall|j: int| 0 <= j < i ==> copy[j].deep_view() == pairs[j].deep_view(),
                decreases pairs.len() - i,
            {
                let name = pairs[i].0.clone();
                let value = pairs[i].1.clone();
                copy.push((name, value));
                i += 1;
            }
            assert(copy.deep_view() =~= pairs.deep_view());
            Some(copy)
        },
    }
}

/// Whether two variable lists hold the same bindings in the same order.
fn same_pairs(x: &Vec<(String, String)>, y: &Vec<(String, String)>) -> (same: bool)
    ensures
        same == (x.deep_view() == y.deep_view()),
{
    if x.len() != y.len() {
        assert(x.deep_view().len() != y.deep_view().len());
        return false;
    }
    let mut i: usize = 0;
    while i < x.len()
        invariant
            i <= x.len(),
            x.len() == y.len(),
            forall|j: int| 0 <= j < i ==> x[j].deep_view() == y[j].deep_view(),
        decreases x.len() - i,
    {
        if !same_text(x[i].0.as_str(), y[i].0.as_str()) || !same_text(
            x[i].1.as_str(),
            y[i].1.as_str(),
        ) {
            assert(x.deep_view()[i as int] == x[i as int].deep_view());
            assert(y.deep_view()[i as int] == y[i as int].deep_view());
            assert(x[i as int].deep_view() != y[i as int].deep_view());
            return false;
        }
        i += 1;
    }
    assert(x.deep_view() =~= y.deep_view());
    true
}

/// Whether two optional variable lists hold the same bindings in the same order.
fn same_bindings(a: &Option<Vec<(String, String)>>, b: &Option<Vec<(String, String)>>) -> (same:
    bool)
    ensures
        same == (bindings(*a) == bindings(*b)),
{
    let empty: Vec<(String, String)> = Vec::new();
    let x = match a {
        Some(pairs) => pairs,
        None => &empty,
    };
    let y = match b {
        Some(pairs) => pairs,
        None => &empty,
    };
    assert(x.deep_view() =~= bindings(*a));
    assert(y.deep_view() =~= bindings(*b));
    same_pairs(x, y)
}

impl Clone for ProgramConfig {
    fn clone(&self) -> (copy: Self)
        ensures
            copy@ == self@,
    {
        ProgramConfig {
            cmd: self.cmd.clone(),
            args: copy_text_list(&self.args),
            numprocs: self.numprocs,
            umask: copy_optional_text(&self.umask),
            workingdir: copy_optional_text(&self.workingdir),
            autostart: self.autostart,
            autorestart: self.autorestart,
            exitcodes: self.exitcodes.duplicate(),
            startretries: self.startretries,
            starttime: self.starttime,
            stopsignal: self.stopsignal.clone(),
            stoptime: self.stoptime,
            stdout: copy_optional_text(&self.stdout),
            stderr: copy_optional_text(&self.stderr),
            env: copy_bindings(&self.env),
        }
    }
}

impl ProgramConfig {
    /// Whether `other` differs from this program in any field but the replica
    /// count.
    pub fn differs_materially(&self, other: &ProgramConfig) -> (changed: bool)
        ensures
            changed == self@.differs_materially(other@),
    {
        let same = same_text(self.cmd.as_str(), other.cmd.as_str()) && same_text_list(
            &self.args,
            &other.args,
        ) && same_optional_text(&self.umask, &other.umask) && same_optional_text(
            &self.workingdir,
            &other.workingdir,
        ) && self.autostart == other.autostart && self.autorestart == other.autorestart
            && self.exitcodes.same_codes(&other.exitcodes) && self.startretries
            == other.startretries && self.starttime == other.starttime && same_text(
            self.stopsignal.as_str(),
            other.stopsignal.as_str(),
        ) && self.stoptime == other.stoptime && same_optional_text(&self.stdout, &other.stdout)
            && same_optional_text(&self.stderr, &other.stderr) && same_bindings(
            &self.env,
            &other.env,
        );
        !same
    }
}

/// The declared configuration: each program under its name.
#[derive(Debug, PartialEq, Eq)]
pub struct Config {
    programs: Vec<(String, ProgramConfig)>,
}

impl View for Config {
    type V = Seq<(Name, ProgramSpec)>;

    closed spec fn view(&self) -> Seq<(Name, ProgramSpec)> {
        Seq::new(self.programs.len() as nat, |i: int| (self.programs[i].0@, self.programs[i].1@))
    }
}

impl Config {
    /// A configuration is a mapping: no program name occurs twice.
    pub open spec fn wf(&self) -> bool {
        names_distinct(self@)
    }

    /// A configuration that declares no program.
    pub fn new() -> (config: Config)
        ensures
            config.wf(),
            config@.len() == 0,
    {
        Config { programs: Vec::new() }
    }

    /// The number of declared programs.
    pub fn len(&self) -> (count: usize)
        ensures
            count == self@.len(),
    {
        self.programs.len()
    }

    /// The name of the program at position `i`.
    pub fn name_at(&self, i: usize) -> (name: &String)
        requires
            i < self@.len(),
        ensures
            name@ == self@[i as int].0,
    {
        &self.programs[i].0
    }

    /// The program at position `i`.
    pub fn program_at(&self, i: usize) -> (program: &ProgramConfig)
        requires
            i < self@.len(),
        ensures
            program@ == self@[i as int].1,
    {
        &self.programs[i].1
    }

    /// The position of the program called `name`, if it is declared.
    pub fn position(&self, name: &str) -> (found: Option<usize>)
        ensures
            found is Some == has_name(self@, name@),
            found matches Some(i) ==> i < self@.len() && self@[i as int].0 == name@,
            self.wf() && found is Some ==> found->0 == position_of(self@, name@),
    {
        let mut i: usize = 0;
        while i < self.programs.len()
            invariant
                i <= self.programs.len(),
                forall|j: int| 0 <= j < i ==> (#[trigger] self@[j]).0 != name@,
            decreases self.programs.len() - i,
        {
            if same_text(self.programs[i].0.as_str(), name) {
                proof {
                    assert(self@[i as int].0 == name@);
                    if self.wf() {
                        lemma_lookup_at(self@, i as int);
                    }
                }
                return Some(i);
            }
            i += 1;
        }
        None
    }

    /// The program declared under `name`, if any.
    pub fn get(&self, name: &str) -> (program: Option<&ProgramConfig>)
        requires
            self.wf(),
        ensures
            program is Some == has_name(self@, name@),
            program matches Some(found) ==> lookup(self@, name@) == Some(found@),
    {
        match self.position(name) {
            Some(i) => Some(&self.programs[i].1),
            None => None,
        }
    }

    /// Declares `program` under `name`, in place of an earlier declaration
    /// of that name if there is one.
    pub fn insert(&mut self, name: String, program: ProgramConfig)
        requires
            old(self).wf(),
        ensures
            final(self).wf(),
            lookup(final(self)@, name@) == Some(program@),
            forall|other: Name| other != name@ ==> lookup(final(self)@, other) == lookup(old(self)@, other),
            has_name(old(self)@, name@) ==> final(self)@ == old(self)@.update(
                position_of(old(self)@, name@),
                (name@, program@),
            ),
            !has_name(old(self)@, name@) ==> final(self)@ == old(self)@.push((name@, program@)),
    {
        let ghost before = self@;
        match self.position(name.as_str()) {
            Some(i) => {
                self.programs.set(i, (name, program));
                assert(self@ =~= before.update(i as int, (name@, program@)));
                proof {
                    lemma_lookup_update(before, i as int, program@);
                }
            },
            None => {
                self.programs.push((name, program));
                assert(self@ =~= before.push((name@, program@)));
                proof {
                    lemma_lookup_push(before, name@, program@);
                }
            },
        }
    }
}

} // verus!
