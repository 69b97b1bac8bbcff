//! The task model: what a taskfile declares, and where it lives.

use vstd::prelude::*;
use vstd::string::*;
use crate::dict::{clone_strings, lemma_push_members, lemma_without, unlist, without, Dict};
use crate::error::{ExecError, JotError};
use crate::parser::{load_outcome, Parser};
use crate::text::{lines_of, texts_of};

verus! {

/// The name of the taskfile where none is given.
pub open spec fn default_file_name() -> Seq<char> {
    "jotfile"@
}

/// The directory where none is given.
pub open spec fn default_dir() -> Seq<char> {
    "."@
}

/// The key of the shell, in the configuration and among the overrides.
pub open spec fn shell_key() -> Seq<char> {
    "SHELL"@
}

/// The key of the command that runs where no task is named.
pub open spec fn default_key() -> Seq<char> {
    "DEFAULT"@
}

/// What a taskfile declares, as maps from names to texts.
pub struct Outline {
    /// Each task's commands, in order.
    pub tasks: Map<Seq<char>, Seq<Seq<char>>>,
    /// Each section's tasks, in the order of their declaration.
    pub sections: Map<Seq<char>, Seq<Seq<char>>>,
    /// The variables.
    pub vars: Map<Seq<char>, Seq<char>>,
    /// The configuration.
    pub configs: Map<Seq<char>, Seq<char>>,
    /// The task names, in the order of their first declaration.
    pub task_order: Seq<Seq<char>>,
    /// The section names, in the order of their first header.
    pub section_order: Seq<Seq<char>>,
}

impl Outline {
    /// The outline of a file that declares nothing.
    pub open spec fn empty() -> Outline {
        Outline {
            tasks: Map::empty(),
            sections: Map::empty(),
            vars: Map::empty(),
            configs: Map::empty(),
            task_order: Seq::empty(),
            section_order: Seq::empty(),
        }
    }

    /// No task is without a command, every task that a section lists is
    /// declared, and no task is listed twice, in one section or in two.
    pub open spec fn sound(self) -> bool {
        &&& forall|k: Seq<char>| self.tasks.contains_key(k) ==> (#[trigger] self.tasks[k]).len() > 0
        &&& forall|s: Seq<char>, x: Seq<char>|
            self.sections.contains_key(s) && #[trigger] self.sections[s].contains(x)
                ==> self.tasks.contains_key(x)
        &&& forall|s: Seq<char>| #[trigger]
            self.sections.contains_key(s) ==> self.sections[s].no_duplicates()
        &&& forall|s: Seq<char>, t: Seq<char>, x: Seq<char>|
            self.sections.contains_key(s) && self.sections.contains_key(t) && s != t
                && #[trigger] self.sections[s].contains(x) ==> !#[trigger] self.sections[t].contains(x)
    }

    /// The outline after `key = value`: a configuration entry where
    /// `is_config` holds, a variable where it does not.
    pub open spec fn with_setting(self, key: Seq<char>, value: Seq<char>, is_config: bool) -> Outline {
        if is_config {
            Outline { configs: self.configs.insert(key, value), ..self }
        } else {
            Outline { vars: self.vars.insert(key, value), ..self }
        }
    }

    /// The outline after a header of section `name`: the section is there,
    /// empty and last where it is new.
    pub open spec fn with_section(self, name: Seq<char>) -> Outline {
        if self.sections.contains_key(name) {
            self
        } else {
            Outline {
                sections: self.sections.insert(name, Seq::empty()),
                section_order: self.section_order.push(name),
                ..self
            }
        }
    }

    /// The outline after the declaration of task `name` while `section` is
    /// active: the task has these commands, and the section lists it last.
    /// No other section lists it any longer, nor does the active one list it
    /// a second time: a task belongs to the section of its last declaration.
    /// A name that is new comes last in its order.
    pub open spec fn with_task(
        self,
        name: Seq<char>,
        commands: Seq<Seq<char>>,
        section: Option<Seq<char>>,
    ) -> Outline {
        Outline {
            tasks: self.tasks.insert(name, commands),
            sections: match section {
                Some(s) => unlist(self.sections, name).insert(
                    s,
                    (if self.sections.contains_key(s) {
                        without(self.sections[s], name)
                    } else {
                        Seq::empty()
                    }).push(name),
                ),
                None => unlist(self.sections, name),
            },
            task_order: if self.tasks.contains_key(name) {
                self.task_order
            } else {
                self.task_order.push(name)
            },
            section_order: match section {
                Some(s) => if self.sections.contains_key(s) {
                    self.section_order
                } else {
                    self.section_order.push(s)
                },
                None => self.section_order,
            },
            ..self
        }
    }

    /// Soundness rests on tasks and sections alone.
    pub proof fn lemma_sound_by(self, other: Outline)
        requires
            self.sound(),
            other.tasks == self.tasks,
            other.sections == self.sections,
        ensures
            other.sound(),
    {
    }

    /// A setting leaves a sound outline sound.
    pub proof fn lemma_with_setting(self, key: Seq<char>, value: Seq<char>, is_config: bool)
        requires
            self.sound(),
        ensures
            self.with_setting(key, value, is_config).sound(),
    {
    }

    /// A section header leaves a sound outline sound.
    pub proof fn lemma_with_section(self, name: Seq<char>)
        requires
            self.sound(),
        ensures
            self.with_section(name).sound(),
    {
        let after = self.with_section(name);
        if !self.sections.contains_key(name) {
            assert(after.sections[name].len() == 0);
            assert forall|s: Seq<char>, x: Seq<char>|
                after.sections.contains_key(s) && #[trigger] after.sections[s].contains(
                    x,
                ) implies after.tasks.contains_key(x) by {
                if s != name {
                    assert(self.sections[s].contains(x));
                }
            }
            assert forall|s: Seq<char>| #[trigger]
                after.sections.contains_key(s) implies after.sections[s].no_duplicates() by {
                if s != name {
                    assert(self.sections.contains_key(s));
                }
            }
            assert forall|s: Seq<char>, t: Seq<char>, x: Seq<char>|
                after.sections.contains_key(s) && after.sections.contains_key(t) && s != t
                    && #[trigger] after.sections[s].contains(x) implies !#[trigger] after.sections[t].contains(
                x,
            ) by {
                if s != name && t != name {
                    assert(self.sections[s].contains(x));
                    assert(!self.sections[t].contains(x));
                }
            }
        }
    }

    /// Where a task is listed after the declaration of task `name` while
    /// `section` is active: `name` in the active section alone, every other
    /// task where it was.
    pub proof fn lemma_listed_after(
        self,
        name: Seq<char>,
        commands: Seq<Seq<char>>,
        section: Option<Seq<char>>,
        s: Seq<char>,
        x: Seq<char>,
    )
        requires
            self.with_task(name, commands, section).sections.contains_key(s),
        ensures
            self.with_task(name, commands, section).sections[s].contains(x) <==> (if x == name {
                section == Some(s)
            } else {
                self.sections.contains_key(s) && self.sections[s].contains(x)
            }),
            self.sections.contains_key(s) && self.sections[s].no_duplicates() ==> self.with_task(
                name,
                commands,
                section,
            ).sections[s].no_duplicates(),
            !self.sections.contains_key(s) ==> self.with_task(
                name,
                commands,
                section,
            ).sections[s].no_duplicates(),
    {
        let empty = Seq::<Seq<char>>::empty();
        let after = self.with_task(name, commands, section).sections[s];
        if self.sections.contains_key(s) {
            let l = self.sections[s];
            let w = without(l, name);
            lemma_without(l, name);
            lemma_push_members(w, name);
            assert(w.contains(x) <==> (l.contains(x) && x != name));
            assert(!w.contains(name));
            assert(w.push(name).contains(x) <==> (w.contains(x) || x == name));
            assert(after == if section == Some(s) {
                w.push(name)
            } else {
                w
            });
        } else {
            lemma_push_members(empty, name);
            assert(!empty.contains(x));
            assert(!empty.contains(name));
            assert(empty.no_duplicates());
            assert(empty.push(name).contains(x) <==> (empty.contains(x) || x == name));
            assert(section == Some(s));
            assert(after == empty.push(name));
        }
    }

    /// The declaration of a task with at least one command leaves a sound
    /// outline sound.
    pub proof fn lemma_with_task(
        self,
        name: Seq<char>,
        commands: Seq<Seq<char>>,
        section: Option<Seq<char>>,
    )
        requires
            self.sound(),
            commands.len() > 0,
        ensures
            self.with_task(name, commands, section).sound(),
    {
        let after = self.with_task(name, commands, section);
        assert forall|k: Seq<char>| after.tasks.contains_key(k) implies (#[trigger] after.tasks[k]).len()
            > 0 by {
            if k != name {
                assert(self.tasks[k].len() > 0);
            }
        }
        assert forall|s: Seq<char>, x: Seq<char>|
            after.sections.contains_key(s) && #[trigger] after.sections[s].contains(
                x,
            ) implies after.tasks.contains_key(x) by {
            self.lemma_listed_after(name, commands, section, s, x);
        }
        assert forall|s: Seq<char>| #[trigger]
            after.sections.contains_key(s) implies after.sections[s].no_duplicates() by {
            self.lemma_listed_after(name, commands, section, s, name);
            if self.sections.contains_key(s) {
                assert(self.sections[s].no_duplicates());
            }
        }
        assert forall|s: Seq<char>, t: Seq<char>, x: Seq<char>|
            after.sections.contains_key(s) && after.sections.contains_key(t) && s != t
                && #[trigger] after.sections[s].contains(x) implies !#[trigger] after.sections[t].contains(
            x,
        ) by {
            self.lemma_listed_after(name, commands, section, s, x);
            self.lemma_listed_after(name, commands, section, t, x);
            if x != name && self.sections.contains_key(t) {
                assert(self.sections[s].contains(x));
                assert(!self.sections[t].contains(x));
            }
        }
    }
}

/// Whether some section of `sections` lists the task `name`.
pub open spec fn listed(sections: Map<Seq<char>, Seq<Seq<char>>>, name: Seq<char>) -> bool {
    exists|s: Seq<char>, j: int|
        sections.contains_key(s) && 0 <= j < sections[s].len() && #[trigger] sections[s][j] == name
}

/// The test for a task that no section of `sections` lists.
pub open spec fn unlisted(sections: Map<Seq<char>, Seq<Seq<char>>>) -> spec_fn(Seq<char>) -> bool {
    |name: Seq<char>| !listed(sections, name)
}

/// The shell that runs the commands: the override where there is one, else
/// the configured one.
pub open spec fn chosen_shell(
    overrides: Map<Seq<char>, Seq<char>>,
    configs: Map<Seq<char>, Seq<char>>,
) -> Option<Seq<char>> {
    if overrides.contains_key(shell_key()) {
        Some(overrides[shell_key()])
    } else if configs.contains_key(shell_key()) {
        Some(configs[shell_key()])
    } else {
        None
    }
}

/// The commands to run: those of the requested task, or the default command
/// where none is requested.
pub open spec fn chosen_commands(o: Outline, task: Option<Seq<char>>) -> Result<
    Seq<Seq<char>>,
    ExecError,
> {
    match task {
        Some(name) => if o.tasks.contains_key(name) {
            Ok(o.tasks[name])
        } else {
            Err(ExecError::TaskNotFound)
        },
        None => if o.configs.contains_key(default_key()) {
            Ok(seq![o.configs[default_key()]])
        } else {
            Err(ExecError::NoDefault)
        },
    }
}

/// Shell and commands of an execution, or why there is none. The commands are
/// settled first, then the shell.
pub open spec fn planned(
    o: Outline,
    overrides: Map<Seq<char>, Seq<char>>,
    task: Option<Seq<char>>,
) -> Result<(Seq<char>, Seq<Seq<char>>), ExecError> {
    match chosen_commands(o, task) {
        Err(e) => Err(e),
        Ok(commands) => match chosen_shell(overrides, o.configs) {
            None => Err(ExecError::NoShell),
            Some(shell) => Ok((shell, commands)),
        },
    }
}

/// An override of the shell wins over the configured shell.
pub proof fn lemma_override_wins(
    o: Outline,
    overrides: Map<Seq<char>, Seq<char>>,
    task: Option<Seq<char>>,
)
    requires
        overrides.contains_key(shell_key()),
    ensures
        chosen_shell(overrides, o.configs) == Some(overrides[shell_key()]),
        planned(o, overrides, task) is Ok ==> (planned(o, overrides, task)->Ok_0).0 == overrides[shell_key()],
{
}

/// What an executor is to do: run `commands` in order, each to its end, as
/// `shell -c command` in `dir`.
#[derive(Debug)]
pub struct Execution {
    pub dir: String,
    pub shell: String,
    pub commands: Vec<String>,
}

/// The name of the taskfile: the one given, or the default.
pub fn taskfile_name(jotfile: Option<String>) -> (name: String)
    ensures
        name@ == (match jotfile {
            Some(f) => f@,
            None => default_file_name(),
        }),
{
    match jotfile {
        Some(f) => f,
        None => String::from_str("jotfile"),
    }
}

/// Calls `std::path::Path::join`: the path `name` adjoined to the path `dir`.
/// How two paths are adjoined is the platform's matter, so nothing is
/// claimed of the result.
#[verifier::external_body]
fn join_path(dir: &str, name: &str) -> (path: String) {
    std::path::Path::new(dir).join(name).to_string_lossy().into_owned()
}

/// The task model of one run.
#[derive(Debug)]
pub struct Jotfile {
    /// The directory of the taskfile, in which tasks run.
    pub dir: String,
    /// The location of the taskfile: its name adjoined to the directory.
    pub jotfile: String,
    /// Task names and their commands.
    pub tasks: Dict<Vec<String>>,
    /// Section names and their tasks.
    pub sections: Dict<Vec<String>>,
    /// Variables; stored, not used.
    pub vars: Dict<String>,
    /// Configuration from the file, and defaults.
    pub configs: Dict<String>,
    /// What the caller overrides; it outranks the configuration.
    pub flag_overrides: Dict<String>,
}

impl Jotfile {
    /// What the model declares.
    pub open spec fn outline(&self) -> Outline {
        Outline {
            tasks: self.tasks.lists(),
            sections: self.sections.lists(),
            vars: self.vars.texts(),
            configs: self.configs.texts(),
            task_order: self.tasks.names(),
            section_order: self.sections.names(),
        }
    }

    /// The overrides as a map.
    pub open spec fn overrides(&self) -> Map<Seq<char>, Seq<char>> {
        self.flag_overrides.texts()
    }

    /// The model's invariant.
    pub open spec fn wf(&self) -> bool {
        &&& self.tasks.wf()
        &&& self.sections.wf()
        &&& self.vars.wf()
        &&& self.configs.wf()
        &&& self.flag_overrides.wf()
        &&& self.outline().sound()
    }

    /// The orders of a model hold the names of its tasks and of its sections,
    /// each once.
    pub proof fn lemma_orders(&self)
        requires
            self.wf(),
        ensures
            self.outline().task_order.no_duplicates(),
            self.outline().section_order.no_duplicates(),
            forall|k: Seq<char>|
                self.outline().tasks.contains_key(k) <==> self.outline().task_order.contains(k),
            forall|k: Seq<char>|
                self.outline().sections.contains_key(k) <==> self.outline().section_order.contains(k),
    {
        self.tasks.lemma_names();
        self.sections.lemma_names();
    }

    /// Whether `other` lives where this model lives, under the same overrides.
    pub open spec fn same_place(&self, other: &Jotfile) -> bool {
        &&& self.dir@ == other.dir@
        &&& self.jotfile@ == other.jotfile@
        &&& self.overrides() == other.overrides()
    }

    /// An empty model for the taskfile at `jotfile`, which lies in `dir`, with
    /// `shell` as the override of the shell.
    pub fn at(dir: String, jotfile: String, shell: Option<String>) -> (m: Self)
        ensures
            m.wf(),
            m.outline() == Outline::empty(),
            m.dir@ == dir@,
            m.jotfile@ == jotfile@,
            m.overrides() == (match shell {
                Some(s) => Map::<Seq<char>, Seq<char>>::empty().insert(shell_key(), s@),
                None => Map::<Seq<char>, Seq<char>>::empty(),
            }),
    {
        let mut m = Jotfile {
            dir,
            jotfile,
            tasks: Dict::new(),
            sections: Dict::new(),
            vars: Dict::new(),
            configs: Dict::new(),
            flag_overrides: Dict::new(),
        };
        assert(m.tasks.lists() =~= Map::<Seq<char>, Seq<Seq<char>>>::empty());
        assert(m.sections.lists() =~= Map::<Seq<char>, Seq<Seq<char>>>::empty());
        assert(m.vars.texts() =~= Map::<Seq<char>, Seq<char>>::empty());
        assert(m.configs.texts() =~= Map::<Seq<char>, Seq<char>>::empty());
        assert(m.flag_overrides.texts() =~= Map::<Seq<char>, Seq<char>>::empty());
        assert(m.tasks.names() =~= Seq::<Seq<char>>::empty());
        assert(m.sections.names() =~= Seq::<Seq<char>>::empty());
        match shell {
            Some(s) => {
                m.flag_overrides.set(String::from_str("SHELL"), s);
            },
            None => {},
        }
        m
    }

    /// An empty model for the taskfile named `jotfile` (by default `jotfile`)
    /// in `dir` (by default `.`), with `shell` as the override of the shell.
    /// The model's `jotfile` is that name adjoined to the directory as the
    /// platform adjoins paths; what it holds is not stated here, and
    /// [`Jotfile::at`] takes it as it comes.
    pub fn new(dir: Option<String>, jotfile: Option<String>, shell: Option<String>) -> (m: Self)
        ensures
            m.wf(),
            m.outline() == Outline::empty(),
            m.dir@ == (match dir {
                Some(d) => d@,
                None => default_dir(),
            }),
            m.overrides() == (match shell {
                Some(s) => Map::<Seq<char>, Seq<char>>::empty().insert(shell_key(), s@),
                None => Map::<Seq<char>, Seq<char>>::empty(),
            }),
    {
        let dir = match dir {
            Some(d) => d,
            None => String::from_str("."),
        };
        let name = taskfile_name(jotfile);
        let path = join_path(dir.as_str(), name.as_str());
        Jotfile::at(dir, path, shell)
    }

    /// The commands of task `name`, if it is declared.
    pub fn get_task(&self, name: &str) -> (r: Option<&Vec<String>>)
        requires
            self.wf(),
        ensures
            match r {
                Some(commands) => self.outline().tasks.contains_key(name@) && texts_of(commands@)
                    == self.outline().tasks[name@] && commands.len() > 0,
                None => !self.outline().tasks.contains_key(name@),
            },
    {
        let r = self.tasks.get(name);
        proof {
            if r is Some {
                assert(self.outline().tasks[name@].len() > 0);
            }
        }
        r
    }

    /// Loads the taskfile's `content` into the model: see [`Parser::parse`].
    pub fn get_tasks_from_jotfile(&mut self, content: &str, platform_shell: Option<&str>) -> (r:
        Result<(), JotError>)
        requires
            old(self).wf(),
        ensures
            final(self).wf(),
            final(self).same_place(old(self)),
            load_outcome(
                lines_of(content@),
                old(self).outline(),
                match platform_shell {
                    Some(s) => Some(s@),
                    None => None,
                },
                r,
                final(self).outline(),
            ),
    {
        let mut parser = Parser::new();
        parser.parse(content, platform_shell, self)
    }

    /// Whether some section lists the task `name`.
    pub fn is_listed(&self, name: &str) -> (b: bool)
        requires
            self.wf(),
        ensures
            b == listed(self.outline().sections, name@),
    {
        let wanted = String::from_str(name);
        let ghost sections = self.outline().sections;
        let mut a: usize = 0;
        while a < self.sections.keys.len()
            invariant
                self.wf(),
                sections == self.outline().sections,
                wanted@ == name@,
                a <= self.sections.keys.len(),
                forall|x: int, j: int|
                    0 <= x < a && 0 <= j < self.sections.values[x].len() ==> (
                    #[trigger] self.sections.values[x][j])@ != name@,
            decreases self.sections.keys.len() - a,
        {
            let items = &self.sections.values[a];
            let mut j: usize = 0;
            while j < items.len()
                invariant
                    self.wf(),
                    sections == self.outline().sections,
                    wanted@ == name@,
                    a < self.sections.keys.len(),
                    *items == self.sections.values[a as int],
                    j <= items.len(),
                    forall|y: int| 0 <= y < j ==> (#[trigger] items[y])@ != name@,
                decreases items.len() - j,
            {
                if items[j] == wanted {
                    proof {
                        self.sections.lemma_slot(a as int);
                        let s = self.sections.keys[a as int]@;
                        assert(sections[s][j as int] == name@);
                    }
                    return true;
                }
                j += 1;
            }
            a += 1;
        }
        proof {
            if listed(sections, name@) {
                let (s, j) = choose|s: Seq<char>, j: int|
                    sections.contains_key(s) && 0 <= j < sections[s].len() && #[trigger] sections[s][j]
                        == name@;
                let x = self.sections.slot(s);
                assert(self.sections.values[x][j]@ == name@);
            }
        }
        false
    }

    /// What a listing shows ahead of the sections: the tasks that no section
    /// lists, in the order of their declaration; or nothing at all where no
    /// task is declared, which is worth a warning.
    pub fn display_tasks(&self) -> (r: Option<Vec<String>>)
        requires
            self.wf(),
        ensures
            match r {
                None => forall|k: Seq<char>| !self.outline().tasks.contains_key(k),
                Some(names) => {
                    &&& exists|k: Seq<char>| self.outline().tasks.contains_key(k)
                    &&& texts_of(names@) == self.outline().task_order.filter(
                        unlisted(self.outline().sections),
                    )
                },
            },
    {
        if self.tasks.len() == 0 {
            return None;
        }
        proof {
            self.tasks.lemma_slot(0);
            assert(self.outline().tasks.contains_key(self.tasks.keys[0]@));
        }
        let ghost names = self.tasks.names();
        let ghost test = unlisted(self.outline().sections);
        let mut out: Vec<String> = Vec::new();
        let mut i: usize = 0;
        proof {
            reveal(Seq::filter);
            assert(names.take(0).filter(test) =~= texts_of(out@));
        }
        while i < self.tasks.keys.len()
            invariant
                self.wf(),
                names == self.tasks.names(),
                test == unlisted(self.outline().sections),
                i <= self.tasks.keys.len(),
                texts_of(out@) == names.take(i as int).filter(test),
            decreases self.tasks.keys.len() - i,
        {
            let ghost before = texts_of(out@);
            let name = &self.tasks.keys[i];
            proof {
                assert(names.take(i + 1) == names.take(i as int).push(name@));
                names.take(i as int).lemma_filter_push(name@, test);
            }
            if !self.is_listed(name.as_str()) {
                out.push(name.clone());
                assert(texts_of(out@) == before.push(name@));
            }
            i += 1;
        }
        assert(names.take(i as int) == names);
        Some(out)
    }

    /// Plans the execution of `task`, or of the default command where no task
    /// is named: the commands, the shell that runs them, and the directory.
    pub fn execute_task(&self, task: Option<&str>) -> (r: Result<Execution, ExecError>)
        requires
            self.wf(),
        ensures
            match planned(
                self.outline(),
                self.overrides(),
                match task {
                    Some(name) => Some(name@),
                    None => None,
                },
            ) {
                Ok((shell, commands)) => r matches Ok(x) && x.dir@ == self.dir@ && x.shell@ == shell
                    && texts_of(x.commands@) == commands,
                Err(e) => r matches Err(f) && f == e,
            },
    {
        let commands: Vec<String> = match task {
            Some(name) => match self.get_task(name) {
                Some(list) => clone_strings(list),
                None => {
                    return Err(ExecError::TaskNotFound);
                },
            },
            None => match self.configs.get("DEFAULT") {
                Some(command) => {
                    let single = vec![command.clone()];
                    assert(texts_of(single@) =~= seq![command@]);
                    single
                },
                None => {
                    return Err(ExecError::NoDefault);
                },
            },
        };
        let shell: String = match self.flag_overrides.get("SHELL") {
            Some(s) => s.clone(),
            None => match self.configs.get("SHELL") {
                Some(s) => s.clone(),
                None => {
                    return Err(ExecError::NoShell);
                },
            },
        };
        Ok(Execution { dir: self.dir.clone(), shell, commands })
    }

    /// Stores `key = value`: in the configuration where `is_config` holds,
    /// among the variables where it does not.
    pub fn store_setting(&mut self, key: String, value: String, is_config: bool)
        requires
            old(self).wf(),
        ensures
            final(self).wf(),
            final(self).same_place(old(self)),
            final(self).outline() == old(self).outline().with_setting(key@, value@, is_config),
    {
        proof {
            old(self).outline().lemma_with_setting(key@, value@, is_config);
        }
        if is_config {
            self.configs.set(key, value);
        } else {
            self.vars.set(key, value);
        }
    }

    /// Makes sure that section `name` is there, empty where it is new.
    pub fn open_section(&mut self, name: &str)
        requires
            old(self).wf(),
        ensures
            final(self).wf(),
            final(self).same_place(old(self)),
            final(self).outline() == old(self).outline().with_section(name@),
    {
        proof {
            old(self).outline().lemma_with_section(name@);
        }
        self.sections.ensure(name);
    }

    /// Declares task `name` with `commands` while `section` is active.
    pub fn add_task(&mut self, name: String, commands: Vec<String>, section: Option<&str>)
        requires
            old(self).wf(),
            commands.len() > 0,
        ensures
            final(self).wf(),
            final(self).same_place(old(self)),
            final(self).outline() == old(self).outline().with_task(
                name@,
                texts_of(commands@),
                match section {
                    Some(s) => Some(s@),
                    None => None,
                },
            ),
    {
        proof {
            old(self).outline().lemma_with_task(
                name@,
                texts_of(commands@),
                match section {
                    Some(s) => Some(s@),
                    None => None,
                },
            );
        }
        let item = name.clone();
        self.tasks.put(name, commands);
        self.sections.remove_item(item.as_str());
        let ghost cleared = unlist(old(self).sections.lists(), item@);
        match section {
            Some(s) => {
                proof {
                    assert(cleared.contains_key(s@) == old(self).sections.lists().contains_key(s@));
                    if cleared.contains_key(s@) {
                        assert(cleared[s@] == without(old(self).sections.lists()[s@], item@));
                    }
                }
                self.sections.append_to(s, item);
            },
            None => {},
        }
    }
}

} // verus!
