//! One run from the caller's request to what is to be done: load the
//! taskfile, then list it or plan an execution.

use vstd::prelude::*;
use vstd::string::*;
use crate::error::{ExecError, JotError, ParseError};
use crate::model::{planned, shell_key, Execution, Jotfile, Outline};
use crate::grammar::{line_kind, LineKind};
use crate::parser::{
    dangling, fallback_shell, has_dangling, is_reference, lemma_task_declaration, load_leaves,
    load_reports, loaded, parsed, rewritten_all, step, Progress,
};
use crate::text::{lines_of, texts_of, trimmed};

verus! {

/// What the caller asks for.
#[derive(Debug)]
pub struct Jot {
    /// The task to run.
    pub task: Option<String>,
    /// Whether to list the tasks instead of running one.
    pub list: bool,
    /// The directory of the taskfile.
    pub dir: Option<String>,
    /// The name of the taskfile.
    pub jotfile: Option<String>,
    /// The shell that is to run the commands, whatever the file says.
    pub shell: Option<String>,
}

/// What is to be done.
pub enum Action {
    /// Show this model.
    List(Jotfile),
    /// Carry out this execution.
    Execute(Execution),
}

/// Why nothing is to be done.
#[derive(Debug)]
pub enum RunError {
    /// The taskfile is missing or could not be read.
    Unreadable,
    /// The taskfile was read and refused.
    Load(JotError),
    /// The taskfile was loaded and the request cannot be met.
    Exec(ExecError),
}

/// What a taskfile with this content declares once it is loaded; nothing
/// where it cannot be loaded.
pub open spec fn declared(content: Seq<char>, platform_shell: Option<Seq<char>>) -> Option<Outline> {
    match parsed(lines_of(content), Outline::empty()) {
        Err(_) => None,
        Ok(o) => if has_dangling(o.tasks) {
            None
        } else {
            Some(loaded(o, platform_shell))
        },
    }
}

/// The overrides that a request for the shell `shell` makes.
pub open spec fn overrides_of(shell: Option<Seq<char>>) -> Map<Seq<char>, Seq<char>> {
    match shell {
        Some(s) => Map::<Seq<char>, Seq<char>>::empty().insert(shell_key(), s),
        None => Map::<Seq<char>, Seq<char>>::empty(),
    }
}

/// The directory of a request: the one given, or the default.
pub open spec fn dir_of(dir: Option<String>) -> Seq<char> {
    match dir {
        Some(d) => d@,
        None => crate::model::default_dir(),
    }
}

/// The view of an optional string.
pub open spec fn text_of(s: Option<String>) -> Option<Seq<char>> {
    match s {
        Some(t) => Some(t@),
        None => None,
    }
}

/// Carries out the request `cli` on the taskfile's `content`. Where the file
/// could not be read there is no content, and that is an error whatever is
/// asked for. A failed load is reported; a listing hands back the loaded
/// model; otherwise the execution of the requested task is planned.
pub fn run(cli: Jot, content: Option<&str>, platform_shell: Option<&str>) -> (r: Result<
    Action,
    RunError,
>)
    ensures
        match content {
            None => r matches Err(RunError::Unreadable),
            Some(c) => match declared(
                c@,
                match platform_shell {
                    Some(s) => Some(s@),
                    None => None,
                },
            ) {
                None => r matches Err(RunError::Load(e)) && load_reports(
                    lines_of(c@),
                    Outline::empty(),
                    Err::<(), JotError>(e),
                ),
                Some(o) => if cli.list {
                    r matches Ok(Action::List(m)) && m.wf() && m.outline() == o && m.overrides()
                        == overrides_of(text_of(cli.shell)) && m.dir@ == dir_of(cli.dir)
                } else {
                    match planned(o, overrides_of(text_of(cli.shell)), text_of(cli.task)) {
                        Ok((shell, commands)) => r matches Ok(Action::Execute(x)) && x.shell@ == shell
                            && texts_of(x.commands@) == commands && x.dir@ == dir_of(cli.dir),
                        Err(e) => r matches Err(RunError::Exec(f)) && f == e,
                    }
                },
            },
        },
{
    let Jot { task, list, dir, jotfile, shell } = cli;
    let content = match content {
        Some(c) => c,
        None => {
            return Err(RunError::Unreadable);
        },
    };
    let mut model = Jotfile::new(dir, jotfile, shell);
    match model.get_tasks_from_jotfile(content, platform_shell) {
        Err(e) => {
            return Err(RunError::Load(e));
        },
        Ok(()) => {},
    }
    if list {
        return Ok(Action::List(model));
    }
    let wanted: Option<&str> = match &task {
        Some(t) => Some(t.as_str()),
        None => None,
    };
    match model.execute_task(wanted) {
        Ok(x) => Ok(Action::Execute(x)),
        Err(e) => Err(RunError::Exec(e)),
    }
}

/// A taskfile of the one line `name: command`, where the command is not
/// blank and no reference, loads, and the execution of the task `name` is
/// then planned with that one command, trimmed and otherwise as it stands,
/// and, with no override, with the platform's shell or else the fallback.
pub proof fn lemma_single_task_file(
    name: Seq<char>,
    command: Seq<char>,
    platform_shell: Option<Seq<char>>,
)
    requires
        !name.contains(':'),
        line_kind(trimmed(name + seq![':'] + command)) == LineKind::Task,
        trimmed(command).len() > 0,
        !is_reference(trimmed(command)),
    ensures
        ({
            let lines = seq![name + seq![':'] + command];
            let shell = match platform_shell {
                Some(s) => s,
                None => fallback_shell(),
            };
            &&& parsed(lines, Outline::empty()) is Ok
            &&& !has_dangling((parsed(lines, Outline::empty())->Ok_0).tasks)
            &&& planned(
                load_leaves(lines, Outline::empty(), platform_shell),
                Map::empty(),
                Some(trimmed(name)),
            ) == Ok::<_, ExecError>((shell, seq![trimmed(command)]))
        }),
{
    let lines = seq![name + seq![':'] + command];
    let start = Progress { outline: Outline::empty(), section: None, next: 0 };
    let n = trimmed(name);
    let c = trimmed(command);
    lemma_task_declaration(lines, start, name, command);
    let q = step(lines, start)->Ok_0;
    assert(crate::parser::run(lines, q) == Ok::<_, ParseError>(q.outline));
    assert(crate::parser::run(lines, start) == crate::parser::run(lines, q));
    let o = q.outline;
    assert(o.tasks == Map::<Seq<char>, Seq<Seq<char>>>::empty().insert(n, seq![c]));
    assert forall|k: Seq<char>, j: int| !dangling(o.tasks, k, j) by {
        if o.tasks.contains_key(k) && 0 <= j < o.tasks[k].len() {
            assert(o.tasks[k][j] == c);
        }
    }
    let after = loaded(o, platform_shell);
    assert(after.tasks[n] == seq![c]) by {
        assert(rewritten_all(seq![c]) =~= seq![c]);
    }
}

/// Where an execution stands.
#[derive(Clone, Copy, Debug, PartialEq, Eq, Structural)]
pub enum Stage {
    /// Nothing has been done yet.
    Start,
    /// The executor is changing into the directory.
    Entering,
    /// The command of this position is running.
    Running(usize),
    /// Every command has had its turn.
    Finished,
    /// The directory could not be entered; no command was run.
    Aborted,
}

/// What the executor reports of what it was told to do.
#[derive(Clone, Copy, Debug, PartialEq, Eq, Structural)]
pub enum Event {
    /// The executor is ready.
    Begin,
    /// The directory was entered.
    Entered,
    /// The directory could not be entered.
    EnterFailed,
    /// The command was launched and has ended, with whatever exit status.
    Ran,
    /// The command could not be launched.
    LaunchFailed,
}

/// What the executor is to do next.
#[derive(Clone, Copy, Debug, PartialEq, Eq, Structural)]
pub enum Order {
    /// Change into the directory.
    Enter,
    /// Run the command of this position, and wait for its end.
    Run(usize),
    /// Nothing more.
    Stop,
}

/// A failure that is to be reported.
#[derive(Clone, Copy, Debug, PartialEq, Eq, Structural)]
pub enum Fault {
    /// The directory could not be entered.
    Directory,
    /// The command of this position could not be launched.
    Launch(usize),
}

/// One decision: the new stage, what to report, and what to do.
#[derive(Clone, Copy, Debug, PartialEq, Eq, Structural)]
pub struct Turn {
    pub stage: Stage,
    pub report: Option<Fault>,
    pub order: Order,
}

/// The turn that goes on with command `i` of `n`, or ends after the last.
pub open spec fn go_on(n: nat, i: nat, report: Option<Fault>) -> Turn {
    if i < n {
        Turn { stage: Stage::Running(i as usize), report, order: Order::Run(i as usize) }
    } else {
        Turn { stage: Stage::Finished, report, order: Order::Stop }
    }
}

/// The decision at `stage` on `event`, for an execution of `n` commands.
/// The directory is entered first, and no command runs where that fails.
/// Then the commands run in order, each after the one before it has ended;
/// one that cannot be launched is reported and the next one runs all the
/// same. An event that does not belong to the stage stops the execution
/// where it is.
pub open spec fn turn(n: nat, stage: Stage, event: Event) -> Turn {
    match (stage, event) {
        (Stage::Start, Event::Begin) => Turn {
            stage: Stage::Entering,
            report: None,
            order: Order::Enter,
        },
        (Stage::Entering, Event::Entered) => go_on(n, 0, None),
        (Stage::Entering, Event::EnterFailed) => Turn {
            stage: Stage::Aborted,
            report: Some(Fault::Directory),
            order: Order::Stop,
        },
        (Stage::Running(i), Event::Ran) => if i < n {
            go_on(n, (i + 1) as nat, None)
        } else {
            Turn { stage, report: None, order: Order::Stop }
        },
        (Stage::Running(i), Event::LaunchFailed) => if i < n {
            go_on(n, (i + 1) as nat, Some(Fault::Launch(i)))
        } else {
            Turn { stage, report: None, order: Order::Stop }
        },
        _ => Turn { stage, report: None, order: Order::Stop },
    }
}

/// The stage after the events `events`, each answered by its turn.
pub open spec fn stage_after(n: nat, stage: Stage, events: Seq<Event>) -> Stage
    decreases events.len(),
{
    if events.len() == 0 {
        stage
    } else {
        turn(n, stage_after(n, stage, events.drop_last()), events.last()).stage
    }
}

/// Whether a command's end is reported by `event`, launched or not.
pub open spec fn ends_command(event: Event) -> bool {
    event == Event::Ran || event == Event::LaunchFailed
}

/// The commands run in order, whether they can be launched or not: once the
/// directory is entered, after the ends of `events.len()` commands the next
/// command in line is running, or the execution is finished where there is
/// none left.
pub proof fn lemma_commands_in_order(n: nat, events: Seq<Event>)
    requires
        n <= usize::MAX,
        events.len() <= n,
        forall|j: int| 0 <= j < events.len() ==> ends_command(#[trigger] events[j]),
    ensures
        stage_after(n, turn(n, Stage::Entering, Event::Entered).stage, events) == if events.len() < n {
            Stage::Running(events.len() as usize)
        } else {
            Stage::Finished
        },
    decreases events.len(),
{
    if events.len() > 0 {
        lemma_commands_in_order(n, events.drop_last());
    }
}

impl Execution {
    /// Decides what the executor does next: see [`turn`].
    pub fn advance(&self, stage: Stage, event: Event) -> (t: Turn)
        ensures
            t == turn(self.commands@.len(), stage, event),
    {
        let n: usize = self.commands.len();
        match (stage, event) {
            (Stage::Start, Event::Begin) => Turn {
                stage: Stage::Entering,
                report: None,
                order: Order::Enter,
            },
            (Stage::Entering, Event::Entered) => Self::proceed(n, 0, None),
            (Stage::Entering, Event::EnterFailed) => Turn {
                stage: Stage::Aborted,
                report: Some(Fault::Directory),
                order: Order::Stop,
            },
            (Stage::Running(i), Event::Ran) => if i < n {
                Self::proceed(n, i + 1, None)
            } else {
                Turn { stage, report: None, order: Order::Stop }
            },
            (Stage::Running(i), Event::LaunchFailed) => if i < n {
                Self::proceed(n, i + 1, Some(Fault::Launch(i)))
            } else {
                Turn { stage, report: None, order: Order::Stop }
            },
            _ => Turn { stage, report: None, order: Order::Stop },
        }
    }

    /// Goes on with command `i` of `n`, or ends after the last.
    fn proceed(n: usize, i: usize, report: Option<Fault>) -> (t: Turn)
        ensures
            t == go_on(n as nat, i as nat, report),
    {
        if i < n {
            Turn { stage: Stage::Running(i), report, order: Order::Run(i) }
        } else {
            Turn { stage: Stage::Finished, report, order: Order::Stop }
        }
    }
}

} // verus!
