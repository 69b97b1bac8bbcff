//! The taskfile parser: a single forward pass over the lines, then the two
//! passes that resolve references and fill in defaults.

use vstd::prelude::*;
use vstd::string::*;
use crate::error::{JotError, ParseError, ParseErrorKind, ReferenceError};
use crate::grammar::{
    classify, collect, count_kept, is_skipped, kept, lemma_collect_elements, lemma_task_line_parts,
    lemma_var_line_parts, lemma_collect, lemma_collect_closed, line_kind,
    read_section, read_task, read_var, section_name, task_parts, var_parts, LineKind,
};
use crate::model::{default_key, listed, shell_key, Jotfile, Outline};
use crate::text::{
    all_uppercase, ends_with_char, is_all_uppercase, lemma_replaced_clears, lines_of, replace_char,
    replaced, split_first, split_lines, starts_with_char, strip_end, strip_end_str, strip_start,
    strip_start_str, texts_of, trim_str, trimmed, CharClass,
};

verus! {

/// How far a parse has come: what is declared so far, the active section, and
/// the next line.
pub struct Progress {
    pub outline: Outline,
    pub section: Option<Seq<char>>,
    pub next: int,
}

/// The error of kind `kind` at line `i`, which is reported counted from one.
pub open spec fn failure(kind: ParseErrorKind, i: int) -> ParseError {
    ParseError { kind, line: (i + 1) as usize }
}

/// What a variable line at `p.next` does.
pub open spec fn var_step(lines: Seq<Seq<char>>, p: Progress) -> Result<Progress, ParseError> {
    match var_parts(trimmed(lines[p.next])) {
        Err(kind) => Err(failure(kind, p.next)),
        Ok((key, value)) => Ok(
            Progress {
                outline: p.outline.with_setting(key, value, all_uppercase(key)),
                section: p.section,
                next: p.next + 1,
            },
        ),
    }
}

/// What a section line at `p.next` does.
pub open spec fn section_step(lines: Seq<Seq<char>>, p: Progress) -> Result<Progress, ParseError> {
    match section_name(trimmed(lines[p.next])) {
        Err(kind) => Err(failure(kind, p.next)),
        Ok(name) => Ok(
            Progress { outline: p.outline.with_section(name), section: Some(name), next: p.next + 1 },
        ),
    }
}

/// What a task header at `p.next` does, with the body that follows it where
/// it has no inline command.
pub open spec fn task_step(lines: Seq<Seq<char>>, p: Progress) -> Result<Progress, ParseError> {
    match task_parts(trimmed(lines[p.next])) {
        Err(kind) => Err(failure(kind, p.next)),
        Ok((name, inline)) => {
            if inline.len() > 0 {
                Ok(
                    Progress {
                        outline: p.outline.with_task(name, seq![inline], p.section),
                        section: p.section,
                        next: p.next + 1,
                    },
                )
            } else if collect(lines, p.next + 1).0.len() == 0 {
                Err(failure(ParseErrorKind::MissingCommand, p.next))
            } else {
                Ok(
                    Progress {
                        outline: p.outline.with_task(name, collect(lines, p.next + 1).0, p.section),
                        section: p.section,
                        next: p.next + 1 + collect(lines, p.next + 1).1,
                    },
                )
            }
        },
    }
}

/// What the line at `p.next` does.
pub open spec fn step(lines: Seq<Seq<char>>, p: Progress) -> Result<Progress, ParseError> {
    match line_kind(trimmed(lines[p.next])) {
        LineKind::Blank | LineKind::Comment => Ok(Progress { next: p.next + 1, ..p }),
        LineKind::Variable => var_step(lines, p),
        LineKind::Section => section_step(lines, p),
        LineKind::Task => task_step(lines, p),
        LineKind::Invalid => Err(failure(ParseErrorKind::InvalidLine, p.next)),
    }
}

/// A step moves on by at least one line and stays inside the file.
pub proof fn lemma_step_advances(lines: Seq<Seq<char>>, p: Progress)
    requires
        0 <= p.next < lines.len(),
    ensures
        match step(lines, p) {
            Ok(q) => p.next < q.next <= lines.len(),
            Err(_) => true,
        },
{
    lemma_collect(lines, p.next + 1);
}

/// What the lines from `p.next` on declare, on top of `p`; or the first error.
pub open spec fn run(lines: Seq<Seq<char>>, p: Progress) -> Result<Outline, ParseError>
    decreases lines.len() - p.next,
{
    if p.next < 0 || p.next >= lines.len() {
        Ok(p.outline)
    } else {
        proof {
            lemma_step_advances(lines, p);
        }
        match step(lines, p) {
            Err(e) => Err(e),
            Ok(q) => run(lines, q),
        }
    }
}

/// How far the parse from `p` on comes: to the end of the lines, or to the
/// first line that is refused.
pub open spec fn stops_at(lines: Seq<Seq<char>>, p: Progress) -> Progress
    decreases lines.len() - p.next,
{
    if p.next < 0 || p.next >= lines.len() {
        p
    } else {
        proof {
            lemma_step_advances(lines, p);
        }
        match step(lines, p) {
            Err(_) => p,
            Ok(q) => stops_at(lines, q),
        }
    }
}

/// What `lines` declare on top of `start`, with no section active at first.
pub open spec fn parsed(lines: Seq<Seq<char>>, start: Outline) -> Result<Outline, ParseError> {
    run(lines, Progress { outline: start, section: None, next: 0 })
}

/// What a command that invokes a task is rewritten with.
pub open spec fn invocation() -> Seq<char> {
    "jot "@
}

/// Whether `command` invokes another task.
pub open spec fn is_reference(command: Seq<char>) -> bool {
    command.len() > 0 && command[0] == '@'
}

/// The task that the reference `command` names.
pub open spec fn reference_target(command: Seq<char>) -> Seq<char> {
    trimmed(strip_start(trimmed(command), CharClass::Only('@')))
}

/// `command` after resolution: a reference has each `@` replaced by the
/// invocation; a command that is no reference stays as it is.
pub open spec fn rewritten(command: Seq<char>) -> Seq<char> {
    if is_reference(command) {
        replaced(command, '@', invocation())
    } else {
        command
    }
}

/// Whether command `j` of task `k` names a task that is not declared.
pub open spec fn dangling(tasks: Map<Seq<char>, Seq<Seq<char>>>, k: Seq<char>, j: int) -> bool {
    &&& tasks.contains_key(k)
    &&& 0 <= j < tasks[k].len()
    &&& is_reference(tasks[k][j])
    &&& !tasks.contains_key(reference_target(tasks[k][j]))
}

/// Whether any command names a task that is not declared.
pub open spec fn has_dangling(tasks: Map<Seq<char>, Seq<Seq<char>>>) -> bool {
    exists|k: Seq<char>, j: int| dangling(tasks, k, j)
}

/// The commands `commands`, each rewritten.
pub open spec fn rewritten_all(commands: Seq<Seq<char>>) -> Seq<Seq<char>> {
    Seq::new(commands.len(), |j: int| rewritten(commands[j]))
}

/// The tasks `tasks`, each command rewritten.
pub open spec fn resolved(tasks: Map<Seq<char>, Seq<Seq<char>>>) -> Map<Seq<char>, Seq<Seq<char>>> {
    Map::new(|k: Seq<char>| tasks.contains_key(k), |k: Seq<char>| rewritten_all(tasks[k]))
}

/// What a loaded file declares, given what its lines declare: references are
/// resolved and the mandatory configuration is filled in.
pub open spec fn loaded(o: Outline, platform_shell: Option<Seq<char>>) -> Outline {
    Outline { tasks: resolved(o.tasks), configs: filled(o.configs, platform_shell), ..o }
}

/// Whether loading `lines` on top of `start` ends with `r`. The first
/// refused line is reported; then the first reference to a task that is not
/// declared; else the load succeeds.
pub open spec fn load_reports(lines: Seq<Seq<char>>, start: Outline, r: Result<(), JotError>) -> bool {
    match parsed(lines, start) {
        Err(e) => r matches Err(JotError::Parse(pe)) && pe == e,
        Ok(o) => if has_dangling(o.tasks) {
            r matches Err(JotError::Reference(re)) && names_dangling(o, re)
        } else {
            r is Ok
        },
    }
}

/// What loading `lines` on top of `start` leaves declared: after a refused
/// line, what the lines before it declare; after a reference to a task that
/// is not declared, what the lines declare; else that, loaded.
pub open spec fn load_leaves(
    lines: Seq<Seq<char>>,
    start: Outline,
    platform_shell: Option<Seq<char>>,
) -> Outline {
    match parsed(lines, start) {
        Err(_) => stops_at(lines, Progress { outline: start, section: None, next: 0 }).outline,
        Ok(o) => if has_dangling(o.tasks) {
            o
        } else {
            loaded(o, platform_shell)
        },
    }
}

/// Whether loading `lines` on top of `start` ends with `r` and leaves
/// `after` declared.
pub open spec fn load_outcome(
    lines: Seq<Seq<char>>,
    start: Outline,
    platform_shell: Option<Seq<char>>,
    r: Result<(), JotError>,
    after: Outline,
) -> bool {
    load_reports(lines, start, r) && after == load_leaves(lines, start, platform_shell)
}

/// Whether command `j` of the task at position `a` of `order` is the first
/// that names a task that is not declared: no command of an earlier task
/// does, nor an earlier command of the same one.
pub open spec fn first_dangling(
    tasks: Map<Seq<char>, Seq<Seq<char>>>,
    order: Seq<Seq<char>>,
    a: int,
    j: int,
) -> bool {
    &&& 0 <= a < order.len()
    &&& dangling(tasks, order[a], j)
    &&& forall|j2: int| 0 <= j2 < j ==> !#[trigger] dangling(tasks, order[a], j2)
    &&& forall|a2: int, j2: int| 0 <= a2 < a ==> !#[trigger] dangling(tasks, order[a2], j2)
}

/// Whether `e` reports the first reference of `o` to a task that is not
/// declared, in the order of the tasks' declaration.
pub open spec fn names_dangling(o: Outline, e: ReferenceError) -> bool {
    exists|a: int, j: int| #[trigger]
        first_dangling(o.tasks, o.task_order, a, j) && o.task_order[a] == e.task@
            && reference_target(o.tasks[e.task@][j]) == e.target@
}

/// The shell where neither the file nor the platform names one.
pub open spec fn fallback_shell() -> Seq<char> {
    "sh"@
}

/// The command that runs where no task is requested and the file names none.
pub open spec fn fallback_default() -> Seq<char> {
    "jot -l"@
}

/// `configs` with `value` for `key` unless the key has a value already.
pub open spec fn with_default(
    configs: Map<Seq<char>, Seq<char>>,
    key: Seq<char>,
    value: Seq<char>,
) -> Map<Seq<char>, Seq<char>> {
    if configs.contains_key(key) {
        configs
    } else {
        configs.insert(key, value)
    }
}

/// `configs` with the mandatory keys filled in: the shell is the platform's
/// where it has one.
pub open spec fn filled(configs: Map<Seq<char>, Seq<char>>, platform_shell: Option<Seq<char>>) -> Map<
    Seq<char>,
    Seq<char>,
> {
    with_default(
        with_default(
            configs,
            shell_key(),
            match platform_shell {
                Some(s) => s,
                None => fallback_shell(),
            },
        ),
        default_key(),
        fallback_default(),
    )
}

/// Filling is idempotent: after one filling both mandatory keys are there,
/// and a second filling, whatever the platform's shell is by then, changes
/// nothing.
pub proof fn lemma_fill_idempotent(
    configs: Map<Seq<char>, Seq<char>>,
    first: Option<Seq<char>>,
    second: Option<Seq<char>>,
)
    ensures
        filled(configs, first).contains_key(shell_key()),
        filled(configs, first).contains_key(default_key()),
        filled(filled(configs, first), second) == filled(configs, first),
{
}

/// Filling never replaces a value that is there.
pub proof fn lemma_fill_keeps(
    configs: Map<Seq<char>, Seq<char>>,
    platform_shell: Option<Seq<char>>,
    key: Seq<char>,
)
    requires
        configs.contains_key(key),
    ensures
        filled(configs, platform_shell).contains_key(key),
        filled(configs, platform_shell)[key] == configs[key],
{
}

/// A rewritten reference holds no `@`.
pub proof fn lemma_rewritten_clear(command: Seq<char>)
    requires
        is_reference(command),
    ensures
        !rewritten(command).contains('@'),
{
    reveal_strlit("jot ");
    let w = invocation();
    assert(w.len() == 4);
    assert forall|i: int| 0 <= i < w.len() implies w[i] != '@' by {
        assert(w[0] == 'j' && w[1] == 'o' && w[2] == 't' && w[3] == ' ');
    }
    lemma_replaced_clears(command, '@', w);
}

/// Resolution leaves a sound outline sound.
pub proof fn lemma_resolved_sound(o: Outline)
    requires
        o.sound(),
    ensures
        (Outline { tasks: resolved(o.tasks), ..o }).sound(),
{
    let after = Outline { tasks: resolved(o.tasks), ..o };
    assert forall|k: Seq<char>| after.tasks.contains_key(k) implies (#[trigger] after.tasks[k]).len()
        > 0 by {
        assert(o.tasks[k].len() > 0);
    }
    assert forall|s: Seq<char>, x: Seq<char>|
        after.sections.contains_key(s) && #[trigger] after.sections[s].contains(
            x,
        ) implies after.tasks.contains_key(x) by {
        assert(o.tasks.contains_key(x));
    }
}

/// A task header with an inline command declares the task with that one
/// command, trimmed, and takes one line.
pub proof fn lemma_single_line_task(lines: Seq<Seq<char>>, p: Progress)
    requires
        0 <= p.next < lines.len(),
        line_kind(trimmed(lines[p.next])) == LineKind::Task,
        split_first(trimmed(lines[p.next]), ':') is Some,
        trimmed((split_first(trimmed(lines[p.next]), ':')->0).1).len() > 0,
    ensures
        step(lines, p) is Ok,
        ({
            let (left, right) = split_first(trimmed(lines[p.next]), ':')->0;
            let q = step(lines, p)->Ok_0;
            &&& q.next == p.next + 1
            &&& q.outline.tasks.contains_key(trimmed(left))
            &&& q.outline.tasks[trimmed(left)] == seq![trimmed(right)]
        }),
{
}

/// A task line `name: command`, whatever whitespace surrounds the two, with
/// a command that is not blank declares the task `name`, trimmed, with the
/// one command `command`, trimmed.
pub proof fn lemma_task_declaration(
    lines: Seq<Seq<char>>,
    p: Progress,
    name: Seq<char>,
    command: Seq<char>,
)
    requires
        0 <= p.next < lines.len(),
        lines[p.next] == name + seq![':'] + command,
        !name.contains(':'),
        line_kind(trimmed(lines[p.next])) == LineKind::Task,
        trimmed(command).len() > 0,
    ensures
        step(lines, p) is Ok,
        (step(lines, p)->Ok_0).next == p.next + 1,
        (step(lines, p)->Ok_0).outline.tasks.contains_key(trimmed(name)),
        (step(lines, p)->Ok_0).outline.tasks[trimmed(name)] == seq![trimmed(command)],
{
    lemma_task_line_parts(name, command);
}

/// A line `.key = value`, whatever whitespace surrounds the two, with a
/// value that is not blank stores the trimmed value under the trimmed key:
/// in the configuration where the key is all uppercase, among the variables
/// where it is not; the other of the two stays as it was.
pub proof fn lemma_variable_declaration(
    lines: Seq<Seq<char>>,
    p: Progress,
    key: Seq<char>,
    value: Seq<char>,
)
    requires
        0 <= p.next < lines.len(),
        lines[p.next] == seq!['.'] + key + seq!['='] + value,
        !key.contains('='),
        key.len() == 0 || key[0] != '.',
        trimmed(value).len() > 0,
    ensures
        step(lines, p) is Ok,
        ({
            let q = step(lines, p)->Ok_0;
            &&& q.next == p.next + 1
            &&& all_uppercase(trimmed(key)) ==> q.outline.configs.contains_key(trimmed(key))
                && q.outline.configs[trimmed(key)] == trimmed(value) && q.outline.vars == p.outline.vars
            &&& !all_uppercase(trimmed(key)) ==> q.outline.vars.contains_key(trimmed(key))
                && q.outline.vars[trimmed(key)] == trimmed(value) && q.outline.configs
                == p.outline.configs
        }),
{
    lemma_var_line_parts(key, value);
}

/// A task header without an inline command, whose body the line `end` closes
/// with a `;`, declares the task with one command for each line of the body
/// that is not skipped; the last is line `end` without its `;`, and the
/// parse goes on after it.
pub proof fn lemma_multi_line_task(lines: Seq<Seq<char>>, p: Progress, end: int)
    requires
        0 <= p.next < end < lines.len(),
        line_kind(trimmed(lines[p.next])) == LineKind::Task,
        split_first(trimmed(lines[p.next]), ':') is Some,
        trimmed((split_first(trimmed(lines[p.next]), ':')->0).1).len() == 0,
        forall|j: int|
            p.next < j < end ==> is_skipped(trimmed(#[trigger] lines[j])) || trimmed(lines[j]).last()
                != ';',
        !is_skipped(trimmed(lines[end])),
        trimmed(lines[end]).last() == ';',
    ensures
        step(lines, p) is Ok,
        ({
            let name = trimmed((split_first(trimmed(lines[p.next]), ':')->0).0);
            let q = step(lines, p)->Ok_0;
            &&& q.next == end + 1
            &&& q.outline.tasks.contains_key(name)
            &&& q.outline.tasks[name].len() == count_kept(lines, p.next + 1, (end - p.next) as nat)
            &&& q.outline.tasks[name].drop_last() == kept(
                lines,
                p.next + 1,
                (end - p.next - 1) as nat,
            )
            &&& q.outline.tasks[name].last() == trimmed(
                strip_end(trimmed(lines[end]), CharClass::Only(';')),
            )
        }),
{
    lemma_collect_closed(lines, p.next + 1, end);
    lemma_collect_elements(lines, p.next + 1, end);
    let body = kept(lines, p.next + 1, (end - p.next - 1) as nat);
    let last = trimmed(strip_end(trimmed(lines[end]), CharClass::Only(';')));
    assert(body.push(last).drop_last() == body);
}

/// A variable line with a value stores it, trimmed, under its key: in the
/// configuration where the key is all uppercase, among the variables where
/// it is not.
pub proof fn lemma_variable_line(lines: Seq<Seq<char>>, p: Progress)
    requires
        0 <= p.next < lines.len(),
        line_kind(trimmed(lines[p.next])) == LineKind::Variable,
        split_first(trimmed(lines[p.next]), '=') is Some,
        trimmed((split_first(trimmed(lines[p.next]), '=')->0).1).len() > 0,
    ensures
        step(lines, p) is Ok,
        ({
            let (left, right) = split_first(trimmed(lines[p.next]), '=')->0;
            let key = trimmed(strip_start(left, CharClass::Only('.')));
            let q = step(lines, p)->Ok_0;
            &&& q.next == p.next + 1
            &&& all_uppercase(key) ==> q.outline.configs.contains_key(key) && q.outline.configs[key]
                == trimmed(right) && q.outline.vars == p.outline.vars
            &&& !all_uppercase(key) ==> q.outline.vars.contains_key(key) && q.outline.vars[key]
                == trimmed(right) && q.outline.configs == p.outline.configs
        }),
{
}

/// A section header makes its section the active one.
pub proof fn lemma_section_opens(lines: Seq<Seq<char>>, p: Progress)
    requires
        0 <= p.next < lines.len(),
        line_kind(trimmed(lines[p.next])) == LineKind::Section,
        section_name(trimmed(lines[p.next])) is Ok,
    ensures
        step(lines, p) is Ok,
        ({
            let name = section_name(trimmed(lines[p.next]))->Ok_0;
            let q = step(lines, p)->Ok_0;
            &&& q.section == Some(name)
            &&& q.outline.sections.contains_key(name)
            &&& q.outline.tasks == p.outline.tasks
        }),
{
}

/// A task is listed last in the section that is active where it is declared,
/// and in no other section; with no section active it is listed nowhere.
/// Where every other task is listed stays as it was.
pub proof fn lemma_section_scoping(lines: Seq<Seq<char>>, p: Progress)
    requires
        0 <= p.next < lines.len(),
        line_kind(trimmed(lines[p.next])) == LineKind::Task,
        step(lines, p) is Ok,
    ensures
        ({
            let name = (task_parts(trimmed(lines[p.next]))->Ok_0).0;
            let q = step(lines, p)->Ok_0;
            &&& q.section == p.section
            &&& forall|s: Seq<char>| #[trigger]
                q.outline.sections.contains_key(s) ==> (q.outline.sections[s].contains(name) <==> p.section
                    == Some(s))
            &&& forall|s: Seq<char>, x: Seq<char>|
                x != name && q.outline.sections.contains_key(s) ==> (
                #[trigger] q.outline.sections[s].contains(x) <==> p.outline.sections.contains_key(s)
                    && p.outline.sections[s].contains(x))
            &&& match p.section {
                Some(x) => {
                    &&& q.outline.sections.contains_key(x)
                    &&& q.outline.sections[x].len() > 0
                    &&& q.outline.sections[x].last() == name
                },
                None => !listed(q.outline.sections, name),
            }
        }),
{
    let name = (task_parts(trimmed(lines[p.next]))->Ok_0).0;
    let inline = (task_parts(trimmed(lines[p.next]))->Ok_0).1;
    let q = step(lines, p)->Ok_0;
    let commands = if inline.len() > 0 {
        seq![inline]
    } else {
        collect(lines, p.next + 1).0
    };
    assert(q.outline == p.outline.with_task(name, commands, p.section));
    assert forall|s: Seq<char>| #[trigger] q.outline.sections.contains_key(s) implies (
    q.outline.sections[s].contains(name) <==> p.section == Some(s)) by {
        p.outline.lemma_listed_after(name, commands, p.section, s, name);
    }
    assert forall|s: Seq<char>, x: Seq<char>|
        x != name && q.outline.sections.contains_key(s) implies (#[trigger] q.outline.sections[s].contains(
        x,
    ) <==> p.outline.sections.contains_key(s) && p.outline.sections[s].contains(x)) by {
        p.outline.lemma_listed_after(name, commands, p.section, s, x);
    }
    if p.section is None {
        if listed(q.outline.sections, name) {
            let (s, j) = choose|s: Seq<char>, j: int|
                q.outline.sections.contains_key(s) && 0 <= j < q.outline.sections[s].len()
                    && #[trigger] q.outline.sections[s][j] == name;
            assert(q.outline.sections[s].contains(name));
        }
    }
}

/// A line that is no section header leaves the active section as it is.
pub proof fn lemma_section_stays(lines: Seq<Seq<char>>, p: Progress)
    requires
        0 <= p.next < lines.len(),
        line_kind(trimmed(lines[p.next])) != LineKind::Section,
        step(lines, p) is Ok,
    ensures
        (step(lines, p)->Ok_0).section == p.section,
{
}

/// Whether no task header from line `from` on declares the task `name`.
pub open spec fn not_declared_from(lines: Seq<Seq<char>>, from: int, name: Seq<char>) -> bool {
    forall|i: int|
        from <= i < lines.len() && line_kind(trimmed(#[trigger] lines[i])) == LineKind::Task ==> (
        task_parts(trimmed(lines[i]))->Ok_0).0 != name
}

/// Whether section `s` of `o` lists the task `name`.
pub open spec fn lists_in(o: Outline, s: Seq<char>, name: Seq<char>) -> bool {
    o.sections.contains_key(s) && o.sections[s].contains(name)
}

/// A line that does not declare the task `name` leaves it listed where it
/// was, and nowhere else.
pub proof fn lemma_step_keeps_listing(
    lines: Seq<Seq<char>>,
    p: Progress,
    s: Seq<char>,
    name: Seq<char>,
)
    requires
        0 <= p.next < lines.len(),
        not_declared_from(lines, p.next, name),
        step(lines, p) is Ok,
    ensures
        lists_in((step(lines, p)->Ok_0).outline, s, name) == lists_in(p.outline, s, name),
{
    let q = step(lines, p)->Ok_0;
    match line_kind(trimmed(lines[p.next])) {
        LineKind::Task => {
            lemma_section_scoping(lines, p);
            let declared = (task_parts(trimmed(lines[p.next]))->Ok_0).0;
            assert(declared != name);
            if q.outline.sections.contains_key(s) {
                assert(q.outline.sections[s].contains(name) <==> p.outline.sections.contains_key(s)
                    && p.outline.sections[s].contains(name));
            } else {
                assert(!p.outline.sections.contains_key(s));
            }
        },
        LineKind::Section => {
            let opened = section_name(trimmed(lines[p.next]))->Ok_0;
            if !p.outline.sections.contains_key(opened) && s == opened {
                assert(q.outline.sections[s].len() == 0);
            }
        },
        _ => {},
    }
}

/// Lines that do not declare the task `name` leave it listed where it was,
/// and nowhere else, up to the end of the parse.
pub proof fn lemma_run_keeps_listing(
    lines: Seq<Seq<char>>,
    p: Progress,
    s: Seq<char>,
    name: Seq<char>,
)
    requires
        0 <= p.next,
        not_declared_from(lines, p.next, name),
        run(lines, p) is Ok,
    ensures
        lists_in(run(lines, p)->Ok_0, s, name) == lists_in(p.outline, s, name),
    decreases lines.len() - p.next,
{
    if p.next < lines.len() {
        lemma_step_advances(lines, p);
        lemma_step_keeps_listing(lines, p, s, name);
        lemma_run_keeps_listing(lines, step(lines, p)->Ok_0, s, name);
    }
}

/// A task that is declared while section `x` is active, and not again after
/// that, is in the list of `x` when the parse is over, and in no other.
pub proof fn lemma_declared_in_section(lines: Seq<Seq<char>>, p: Progress, x: Seq<char>)
    requires
        0 <= p.next < lines.len(),
        line_kind(trimmed(lines[p.next])) == LineKind::Task,
        p.section == Some(x),
        not_declared_from(lines, p.next + 1, (task_parts(trimmed(lines[p.next]))->Ok_0).0),
        run(lines, p) is Ok,
    ensures
        forall|s: Seq<char>|
            #[trigger] lists_in(run(lines, p)->Ok_0, s, (task_parts(trimmed(lines[p.next]))->Ok_0).0)
                <==> s == x,
{
    let q = step(lines, p)->Ok_0;
    let name = (task_parts(trimmed(lines[p.next]))->Ok_0).0;
    lemma_step_advances(lines, p);
    lemma_section_scoping(lines, p);
    assert forall|s: Seq<char>| #[trigger] lists_in(run(lines, p)->Ok_0, s, name) <==> s == x by {
        lemma_run_keeps_listing(lines, q, s, name);
    }
}

/// A task that is declared while no section is active, and not again after
/// that, is in no section's list when the parse is over.
pub proof fn lemma_declared_in_no_section(lines: Seq<Seq<char>>, p: Progress)
    requires
        0 <= p.next < lines.len(),
        line_kind(trimmed(lines[p.next])) == LineKind::Task,
        p.section is None,
        not_declared_from(lines, p.next + 1, (task_parts(trimmed(lines[p.next]))->Ok_0).0),
        run(lines, p) is Ok,
    ensures
        forall|s: Seq<char>|
            !#[trigger] lists_in(run(lines, p)->Ok_0, s, (task_parts(trimmed(lines[p.next]))->Ok_0).0),
{
    let q = step(lines, p)->Ok_0;
    let name = (task_parts(trimmed(lines[p.next]))->Ok_0).0;
    lemma_step_advances(lines, p);
    lemma_section_scoping(lines, p);
    assert forall|s: Seq<char>| !#[trigger] lists_in(run(lines, p)->Ok_0, s, name) by {
        lemma_run_keeps_listing(lines, q, s, name);
    }
}

/// A command that invokes a declared task comes out of resolution without
/// any `@`; one that invokes a task that is not declared makes resolution
/// fail.
pub proof fn lemma_reference_resolution(tasks: Map<Seq<char>, Seq<Seq<char>>>, k: Seq<char>, j: int)
    requires
        tasks.contains_key(k),
        0 <= j < tasks[k].len(),
        is_reference(tasks[k][j]),
    ensures
        !resolved(tasks)[k][j].contains('@'),
        !tasks.contains_key(reference_target(tasks[k][j])) ==> has_dangling(tasks),
{
    lemma_rewritten_clear(tasks[k][j]);
    if !tasks.contains_key(reference_target(tasks[k][j])) {
        assert(dangling(tasks, k, j));
    }
}

/// The parser's state: the lines, the next line, and the active section.
#[derive(Debug)]
pub struct Parser {
    pub lines: Vec<String>,
    pub line_index: usize,
    pub current_section: Option<String>,
}

/// Looks for a reference to a task that is not declared.
fn find_dangling(jotfile: &Jotfile) -> (r: Option<ReferenceError>)
    requires
        jotfile.wf(),
    ensures
        match r {
            Some(e) => names_dangling(jotfile.outline(), e),
            None => !has_dangling(jotfile.outline().tasks),
        },
{
    let ghost tasks = jotfile.outline().tasks;
    let ghost order = jotfile.outline().task_order;
    let mut t: usize = 0;
    while t < jotfile.tasks.keys.len()
        invariant
            jotfile.wf(),
            tasks == jotfile.outline().tasks,
            order == jotfile.outline().task_order,
            t <= jotfile.tasks.keys.len(),
            forall|a: int, j: int|
                0 <= a < t ==> !#[trigger] dangling(tasks, jotfile.tasks.keys[a]@, j),
        decreases jotfile.tasks.keys.len() - t,
    {
        let commands = &jotfile.tasks.values[t];
        let ghost k = jotfile.tasks.keys[t as int]@;
        proof {
            jotfile.tasks.lemma_slot(t as int);
            assert(tasks[k] == texts_of(commands@));
        }
        let mut c: usize = 0;
        while c < commands.len()
            invariant
                jotfile.wf(),
                tasks == jotfile.outline().tasks,
                order == jotfile.outline().task_order,
                t < jotfile.tasks.keys.len(),
                forall|a: int, j: int|
                    0 <= a < t ==> !#[trigger] dangling(tasks, jotfile.tasks.keys[a]@, j),
                k == jotfile.tasks.keys[t as int]@,
                tasks.contains_key(k),
                tasks[k] == texts_of(commands@),
                c <= commands.len(),
                forall|j: int| 0 <= j < c ==> !dangling(tasks, k, j),
            decreases commands.len() - c,
        {
            let command = commands[c].as_str();
            if starts_with_char(command, '@') {
                let target = trim_str(strip_start_str(trim_str(command), CharClass::Only('@')));
                if jotfile.tasks.find(target).is_none() {
                    let e = ReferenceError {
                        task: jotfile.tasks.keys[t].clone(),
                        target: String::from_str(target),
                    };
                    proof {
                        assert(order[t as int] == k);
                        assert(dangling(tasks, k, c as int));
                        assert forall|a2: int, j2: int| 0 <= a2 < t implies !#[trigger] dangling(
                            tasks,
                            order[a2],
                            j2,
                        ) by {
                            assert(order[a2] == jotfile.tasks.keys[a2]@);
                        }
                        assert(first_dangling(tasks, order, t as int, c as int));
                    }
                    return Some(e);
                }
            }
            c += 1;
        }
        t += 1;
    }
    proof {
        assert forall|k: Seq<char>, j: int| !dangling(tasks, k, j) by {
            if tasks.contains_key(k) {
                let a = jotfile.tasks.slot(k);
                assert(jotfile.tasks.keys[a]@ == k);
            }
        }
    }
    None
}

/// Rewrites each command of `commands`.
fn rewrite_commands(commands: &Vec<String>) -> (fresh: Vec<String>)
    ensures
        texts_of(fresh@) == rewritten_all(texts_of(commands@)),
{
    let mut fresh: Vec<String> = Vec::new();
    let mut c: usize = 0;
    while c < commands.len()
        invariant
            c <= commands.len(),
            fresh.len() == c,
            forall|j: int| 0 <= j < c ==> fresh@[j]@ == rewritten(commands@[j]@),
        decreases commands.len() - c,
    {
        let command = commands[c].as_str();
        if starts_with_char(command, '@') {
            fresh.push(replace_char(command, '@', "jot "));
        } else {
            fresh.push(String::from_str(command));
        }
        c += 1;
    }
    assert(texts_of(fresh@) =~= rewritten_all(texts_of(commands@)));
    fresh
}

impl Parser {
    /// The lines as texts.
    pub open spec fn texts(&self) -> Seq<Seq<char>> {
        texts_of(self.lines@)
    }

    /// The active section.
    pub open spec fn section(&self) -> Option<Seq<char>> {
        match self.current_section {
            Some(s) => Some(s@),
            None => None,
        }
    }

    /// How far the parser has come with `jotfile`.
    pub open spec fn progress(&self, jotfile: &Jotfile) -> Progress {
        Progress { outline: jotfile.outline(), section: self.section(), next: self.line_index as int }
    }

    /// A parser with no lines yet.
    pub fn new() -> (p: Self)
        ensures
            p.lines@.len() == 0,
            p.line_index == 0,
            p.current_section is None,
    {
        Parser { lines: Vec::new(), line_index: 0, current_section: None }
    }

    /// Loads `content` into `jotfile`: parses its lines from the first on,
    /// resolves the references, and fills in the mandatory configuration,
    /// with `platform_shell` as the shell where the file names none.
    pub fn parse(&mut self, content: &str, platform_shell: Option<&str>, jotfile: &mut Jotfile) -> (r:
        Result<(), JotError>)
        requires
            old(jotfile).wf(),
        ensures
            final(jotfile).wf(),
            final(jotfile).same_place(old(jotfile)),
            final(self).texts() == lines_of(content@),
            load_outcome(
                lines_of(content@),
                old(jotfile).outline(),
                match platform_shell {
                    Some(s) => Some(s@),
                    None => None,
                },
                r,
                final(jotfile).outline(),
            ),
    {
        self.lines = split_lines(content);
        self.line_index = 0;
        self.current_section = None;
        let ghost lines = self.texts();
        let ghost start = self.progress(jotfile);
        while self.line_index < self.lines.len()
            invariant
                self.texts() == lines,
                lines == lines_of(content@),
                jotfile.wf(),
                jotfile.same_place(old(jotfile)),
                self.line_index <= self.lines.len(),
                run(lines, self.progress(jotfile)) == run(lines, start),
                stops_at(lines, self.progress(jotfile)) == stops_at(lines, start),
                start == (Progress { outline: old(jotfile).outline(), section: None, next: 0 }),
            decreases self.lines.len() - self.line_index,
        {
            let ghost p = self.progress(jotfile);
            proof {
                lemma_step_advances(lines, p);
            }
            let kind = classify(trim_str(self.lines[self.line_index].as_str()));
            let stepped = match kind {
                LineKind::Blank | LineKind::Comment => {
                    self.line_index += 1;
                    Ok(())
                },
                LineKind::Variable => self.parse_var_line(jotfile),
                LineKind::Section => self.parse_section_line(jotfile),
                LineKind::Task => self.parse_task_line(jotfile),
                LineKind::Invalid => Err(
                    ParseError { kind: ParseErrorKind::InvalidLine, line: self.line_index + 1 },
                ),
            };
            match stepped {
                Err(e) => {
                    return Err(JotError::Parse(e));
                },
                Ok(()) => {},
            }
        }
        match self.unpack_self_references(jotfile) {
            Err(e) => {
                return Err(JotError::Reference(e));
            },
            Ok(()) => {},
        }
        self.fill_default_options(jotfile, platform_shell);
        Ok(())
    }

    /// Reads the variable line at the cursor into `jotfile` and moves on. A
    /// key of uppercase characters alone is a configuration entry.
    pub fn parse_var_line(&mut self, jotfile: &mut Jotfile) -> (r: Result<(), ParseError>)
        requires
            old(self).line_index < old(self).lines.len(),
            old(jotfile).wf(),
        ensures
            final(self).lines == old(self).lines,
            final(jotfile).wf(),
            final(jotfile).same_place(old(jotfile)),
            match var_step(old(self).texts(), old(self).progress(old(jotfile))) {
                Ok(q) => r is Ok && final(self).progress(final(jotfile)) == q,
                Err(e) => r == Err::<(), ParseError>(e) && final(self).progress(final(jotfile)) == old(
                    self,
                ).progress(old(jotfile)),
            },
    {
        let t = trim_str(self.lines[self.line_index].as_str());
        match read_var(t) {
            Err(kind) => Err(ParseError { kind, line: self.line_index + 1 }),
            Ok((key, value)) => {
                let is_config = is_all_uppercase(key.as_str());
                jotfile.store_setting(key, value, is_config);
                self.line_index += 1;
                Ok(())
            },
        }
    }

    /// Reads the section line at the cursor, makes its section the active
    /// one, and moves on.
    pub fn parse_section_line(&mut self, jotfile: &mut Jotfile) -> (r: Result<(), ParseError>)
        requires
            old(self).line_index < old(self).lines.len(),
            old(jotfile).wf(),
        ensures
            final(self).lines == old(self).lines,
            final(jotfile).wf(),
            final(jotfile).same_place(old(jotfile)),
            match section_step(old(self).texts(), old(self).progress(old(jotfile))) {
                Ok(q) => r is Ok && final(self).progress(final(jotfile)) == q,
                Err(e) => r == Err::<(), ParseError>(e) && final(self).progress(final(jotfile)) == old(
                    self,
                ).progress(old(jotfile)),
            },
    {
        let t = trim_str(self.lines[self.line_index].as_str());
        match read_section(t) {
            Err(kind) => Err(ParseError { kind, line: self.line_index + 1 }),
            Ok(name) => {
                jotfile.open_section(name.as_str());
                self.current_section = Some(name);
                self.line_index += 1;
                Ok(())
            },
        }
    }

    /// Reads the task at the cursor, header and body, into `jotfile` and
    /// moves past it. The active section lists the task.
    pub fn parse_task_line(&mut self, jotfile: &mut Jotfile) -> (r: Result<(), ParseError>)
        requires
            old(self).line_index < old(self).lines.len(),
            old(jotfile).wf(),
        ensures
            final(self).lines == old(self).lines,
            final(jotfile).wf(),
            final(jotfile).same_place(old(jotfile)),
            match task_step(old(self).texts(), old(self).progress(old(jotfile))) {
                Ok(q) => r is Ok && final(self).progress(final(jotfile)) == q,
                Err(e) => r == Err::<(), ParseError>(e) && final(self).progress(final(jotfile)) == old(
                    self,
                ).progress(old(jotfile)),
            },
    {
        let header: usize = self.line_index;
        let t = trim_str(self.lines[header].as_str());
        match self.split_task_line(t) {
            Err(e) => Err(e),
            Ok((name, command)) => {
                let commands: Vec<String> = if command.as_str().unicode_len() == 0 {
                    self.collect_multiline_command()
                } else {
                    self.line_index += 1;
                    let ghost inline = command@;
                    let single = vec![command];
                    assert(texts_of(single@) =~= seq![inline]);
                    single
                };
                if commands.len() == 0 {
                    self.line_index = header;
                    Err(ParseError { kind: ParseErrorKind::MissingCommand, line: header + 1 })
                } else {
                    let section: Option<&str> = match &self.current_section {
                        Some(s) => Some(s.as_str()),
                        None => None,
                    };
                    jotfile.add_task(name, commands, section);
                    Ok(())
                }
            },
        }
    }

    /// Splits the trimmed task header `line` into name and inline command.
    /// An error carries the number of the line at the cursor.
    pub fn split_task_line(&self, line: &str) -> (r: Result<(String, String), ParseError>)
        requires
            self.line_index < usize::MAX,
        ensures
            match task_parts(line@) {
                Ok((name, command)) => r matches Ok(pair) && pair.0@ == name && pair.1@ == command,
                Err(kind) => r matches Err(e) && e == failure(kind, self.line_index as int),
            },
    {
        match read_task(line) {
            Err(kind) => Err(ParseError { kind, line: self.line_index + 1 }),
            Ok(pair) => Ok(pair),
        }
    }

    /// Checks every command that starts with `@`: the task it names must be
    /// declared. Then rewrites each such command, every `@` in it by the
    /// invocation; the other commands stay as they are.
    /// On an error `jotfile` is as it was.
    pub fn unpack_self_references(&self, jotfile: &mut Jotfile) -> (r: Result<(), ReferenceError>)
        requires
            old(jotfile).wf(),
        ensures
            final(jotfile).wf(),
            final(jotfile).same_place(old(jotfile)),
            match r {
                Ok(_) => !has_dangling(old(jotfile).outline().tasks) && final(jotfile).outline() == (
                Outline { tasks: resolved(old(jotfile).outline().tasks), ..old(jotfile).outline() }),
                Err(e) => names_dangling(old(jotfile).outline(), e) && final(jotfile).outline() == old(
                    jotfile,
                ).outline(),
            },
    {
        match find_dangling(jotfile) {
            Some(e) => {
                return Err(e);
            },
            None => {},
        }
        let ghost before = *jotfile;
        let mut t: usize = 0;
        while t < jotfile.tasks.keys.len()
            invariant
                before.wf(),
                jotfile.tasks.keys == before.tasks.keys,
                jotfile.tasks.values.len() == before.tasks.values.len(),
                jotfile.sections == before.sections,
                jotfile.vars == before.vars,
                jotfile.configs == before.configs,
                jotfile.flag_overrides == before.flag_overrides,
                jotfile.dir == before.dir,
                jotfile.jotfile == before.jotfile,
                t <= jotfile.tasks.keys.len(),
                forall|a: int|
                    0 <= a < t ==> texts_of((#[trigger] jotfile.tasks.values[a])@) == rewritten_all(
                        texts_of(before.tasks.values[a]@),
                    ),
                forall|a: int|
                    t <= a < jotfile.tasks.keys.len() ==> #[trigger] jotfile.tasks.values[a]
                        == before.tasks.values[a],
            decreases jotfile.tasks.keys.len() - t,
        {
            let fresh = rewrite_commands(&jotfile.tasks.values[t]);
            jotfile.tasks.values.set(t, fresh);
            t += 1;
        }
        proof {
            let want = Outline { tasks: resolved(before.outline().tasks), ..before.outline() };
            assert forall|k: Seq<char>| jotfile.tasks.has(k) == before.tasks.has(k) by {}
            assert forall|k: Seq<char>| before.tasks.has(k) implies jotfile.tasks.lists()[k]
                == resolved(before.tasks.lists())[k] by {
                assert(jotfile.tasks.slot(k) == before.tasks.slot(k));
            }
            assert(jotfile.tasks.lists() =~= resolved(before.tasks.lists()));
            assert(jotfile.outline() == want);
            lemma_resolved_sound(before.outline());
        }
        Ok(())
    }

    /// Collects the body of the multi-line task whose header is at the
    /// cursor, and moves past the body.
    pub fn collect_multiline_command(&mut self) -> (commands: Vec<String>)
        requires
            old(self).line_index < old(self).lines.len(),
        ensures
            final(self).lines == old(self).lines,
            final(self).current_section == old(self).current_section,
            texts_of(commands@) == collect(old(self).texts(), old(self).line_index + 1).0,
            final(self).line_index == old(self).line_index + 1 + collect(
                old(self).texts(),
                old(self).line_index + 1,
            ).1,
            final(self).line_index <= final(self).lines.len(),
    {
        let mut commands: Vec<String> = Vec::new();
        let ghost lines = self.texts();
        let ghost first = self.line_index + 1;
        self.line_index += 1;
        let mut open = true;
        assert(texts_of(commands@) + collect(lines, first).0 == collect(lines, first).0);
        while open && self.line_index < self.lines.len()
            invariant
                self.lines == old(self).lines,
                self.current_section == old(self).current_section,
                lines == self.texts(),
                first <= self.line_index <= self.lines.len(),
                open ==> collect(lines, first).0 == texts_of(commands@) + collect(
                    lines,
                    self.line_index as int,
                ).0,
                open ==> first + collect(lines, first).1 == self.line_index + collect(
                    lines,
                    self.line_index as int,
                ).1,
                !open ==> collect(lines, first).0 == texts_of(commands@),
                !open ==> first + collect(lines, first).1 == self.line_index,
            decreases self.lines.len() - self.line_index, open as int,
        {
            let ghost before = texts_of(commands@);
            let ghost i = self.line_index as int;
            let t = trim_str(self.lines[self.line_index].as_str());
            if t.unicode_len() == 0 || starts_with_char(t, '#') {
            } else if ends_with_char(t, ';') {
                let last = trim_str(strip_end_str(t, CharClass::Only(';')));
                commands.push(String::from_str(last));
                open = false;
                assert(texts_of(commands@) == before.push(last@));
                assert(before.push(last@) == before + seq![last@]);
            } else {
                commands.push(String::from_str(t));
                assert(texts_of(commands@) == before.push(t@));
                assert(before.push(t@) + collect(lines, i + 1).0 == before + (seq![t@] + collect(
                    lines,
                    i + 1,
                ).0));
            }
            self.line_index += 1;
        }
        proof {
            if open {
                assert(texts_of(commands@) + Seq::<Seq<char>>::empty() == texts_of(commands@));
            }
        }
        commands
    }

    /// Fills in the mandatory configuration where the file gave none: the
    /// shell, which is `platform_shell` or else `sh`, and the default
    /// command. No value that is there is replaced.
    pub fn fill_default_options(&self, jotfile: &mut Jotfile, platform_shell: Option<&str>)
        requires
            old(jotfile).wf(),
        ensures
            final(jotfile).wf(),
            final(jotfile).same_place(old(jotfile)),
            final(jotfile).outline() == (Outline {
                configs: filled(
                    old(jotfile).outline().configs,
                    match platform_shell {
                        Some(s) => Some(s@),
                        None => None,
                    },
                ),
                ..old(jotfile).outline()
            }),
    {
        let shell = match platform_shell {
            Some(s) => s,
            None => "sh",
        };
        jotfile.configs.set_default("SHELL", shell);
        jotfile.configs.set_default("DEFAULT", "jot -l");
        proof {
            old(jotfile).outline().lemma_sound_by(jotfile.outline());
        }
    }
}

} // verus!
