use jot::engine::{run, Action, Event, Fault, Jot, Order, RunError, Stage, Turn};
use jot::model::Execution;
use jot::error::ExecError;
use jot::model::Jotfile;

fn texts(items: &[&str]) -> Vec<String> {
    items.iter().map(|s| s.to_string()).collect()
}

fn loaded(content: &str, shell: Option<&str>) -> Jotfile {
    let mut model = Jotfile::new(Some("/work".to_string()), None, shell.map(|s| s.to_string()));
    model.get_tasks_from_jotfile(content, None).unwrap();
    model
}

#[test]
fn new_model_takes_the_defaults() {
    let model = Jotfile::new(None, None, None);
    assert_eq!(model.dir, ".");
    assert_eq!(std::path::Path::new(&model.jotfile), std::path::Path::new(".").join("jotfile"));
    assert_ne!(model.jotfile, ".");
    assert_ne!(model.jotfile, "jotfile");
    assert_eq!(model.flag_overrides.keys.len(), 0);
    assert_eq!(model.tasks.keys.len(), 0);
    assert_eq!(model.configs.keys.len(), 0);
}

#[test]
fn new_model_keeps_what_it_is_given() {
    let model = Jotfile::new(Some("/srv".to_string()), Some("tasks.jot".to_string()), Some("zsh".to_string()));
    assert_eq!(model.dir, "/srv");
    assert_eq!(std::path::Path::new(&model.jotfile), std::path::Path::new("/srv").join("tasks.jot"));
    assert_eq!(model.flag_overrides.get("SHELL"), Some(&"zsh".to_string()));
}

#[test]
fn model_at_a_location_keeps_it_as_given() {
    let model = Jotfile::at("/w".to_string(), "/w/jotfile".to_string(), Some("bash".to_string()));
    assert_eq!(model.dir, "/w");
    assert_eq!(model.jotfile, "/w/jotfile");
    assert_eq!(model.flag_overrides.get("SHELL"), Some(&"bash".to_string()));
    assert_eq!(model.tasks.keys.len(), 0);
    assert_eq!(model.sections.keys.len(), 0);
    assert_eq!(model.vars.keys.len(), 0);
    assert_eq!(model.configs.keys.len(), 0);
    let bare = Jotfile::at("/w".to_string(), "/w/jotfile".to_string(), None);
    assert_eq!(bare.flag_overrides.keys.len(), 0);
}

#[test]
fn taskfile_name_defaults_to_jotfile() {
    assert_eq!(jot::model::taskfile_name(None), "jotfile");
    assert_eq!(jot::model::taskfile_name(Some("tasks".to_string())), "tasks");
}

#[test]
fn redeclared_task_moves_to_the_active_section() {
    let model = loaded("s = \"A\"\nt: echo 1\nu: ls\ns = \"B\"\nt: echo 2\n", None);
    assert_eq!(model.sections.get("A"), Some(&texts(&["u"])));
    assert_eq!(model.sections.get("B"), Some(&texts(&["t"])));
    assert_eq!(model.get_task("t"), Some(&texts(&["echo 2"])));
}

#[test]
fn redeclared_task_is_listed_once_in_its_section() {
    let model = loaded("s = \"A\"\nt: echo 1\nu: ls\nt: echo 2\n", None);
    assert_eq!(model.sections.get("A"), Some(&texts(&["u", "t"])));
}

#[test]
fn task_declared_again_without_a_section_is_listed_nowhere() {
    let mut model = loaded("s = \"A\"\nt: echo 1\n", None);
    model.add_task("t".to_string(), texts(&["echo 2"]), None);
    assert_eq!(model.sections.get("A"), Some(&Vec::<String>::new()));
    assert!(!model.is_listed("t"));
}

#[test]
fn get_task_finds_declared_tasks_only() {
    let model = loaded("build: echo building\n", None);
    assert_eq!(model.get_task("build"), Some(&texts(&["echo building"])));
    assert_eq!(model.get_task("Build"), None);
}

#[test]
fn executing_a_task_runs_its_command_in_the_shell() {
    let model = loaded("build: echo building\n", None);
    let x = model.execute_task(Some("build")).unwrap();
    assert_eq!(x.shell, "sh");
    assert_eq!(x.dir, "/work");
    assert_eq!(x.commands, texts(&["echo building"]));
}

#[test]
fn executing_a_multi_line_task_keeps_the_order() {
    let model = loaded("deploy:\n  echo step1\n  echo step2;\n", None);
    let x = model.execute_task(Some("deploy")).unwrap();
    assert_eq!(x.commands, texts(&["echo step1", "echo step2"]));
}

#[test]
fn override_wins_over_the_file_shell() {
    let model = loaded(".SHELL = bash\nbuild: ls\n", Some("zsh"));
    assert_eq!(model.configs.get("SHELL"), Some(&"bash".to_string()));
    assert_eq!(model.execute_task(Some("build")).unwrap().shell, "zsh");
}

#[test]
fn file_shell_wins_over_the_default() {
    let model = loaded(".SHELL = bash\nbuild: ls\n", None);
    assert_eq!(model.execute_task(Some("build")).unwrap().shell, "bash");
}

#[test]
fn no_task_runs_the_default_command() {
    let model = loaded("build: ls\n", None);
    assert_eq!(model.execute_task(None).unwrap().commands, texts(&["jot -l"]));
    let model = loaded(".DEFAULT = echo hello\nbuild: ls\n", None);
    assert_eq!(model.execute_task(None).unwrap().commands, texts(&["echo hello"]));
}

#[test]
fn unknown_task_is_not_found() {
    let model = loaded("build: ls\n", None);
    assert_eq!(model.execute_task(Some("deploy")).unwrap_err(), ExecError::TaskNotFound);
}

#[test]
fn no_default_without_filling() {
    let model = Jotfile::new(None, None, Some("sh".to_string()));
    assert_eq!(model.execute_task(None).unwrap_err(), ExecError::NoDefault);
}

#[test]
fn no_shell_without_filling() {
    let mut model = Jotfile::new(None, None, None);
    model.add_task("a".to_string(), texts(&["ls"]), None);
    assert_eq!(model.execute_task(Some("a")).unwrap_err(), ExecError::NoShell);
    model.store_setting("SHELL".to_string(), "dash".to_string(), true);
    assert_eq!(model.execute_task(Some("a")).unwrap().shell, "dash");
}

#[test]
fn store_setting_goes_by_the_flag() {
    let mut model = Jotfile::new(None, None, None);
    model.store_setting("k".to_string(), "1".to_string(), true);
    model.store_setting("k".to_string(), "2".to_string(), false);
    assert_eq!(model.configs.get("k"), Some(&"1".to_string()));
    assert_eq!(model.vars.get("k"), Some(&"2".to_string()));
}

#[test]
fn listing_shows_ungrouped_tasks_first() {
    let model = loaded("z: ls\na: ls\ns = \"S\"\nm: ls\nlate: ls\n", None);
    assert_eq!(model.display_tasks(), Some(texts(&["z", "a"])));
    assert_eq!(model.sections.get("S"), Some(&texts(&["m", "late"])));
}

#[test]
fn listing_of_grouped_tasks_only_has_no_ungrouped() {
    let model = loaded("s = \"S\"\nm: ls\n", None);
    assert_eq!(model.display_tasks(), Some(Vec::<String>::new()));
}

#[test]
fn run_plans_the_requested_task() {
    let cli = Jot {
        task: Some("build".to_string()),
        list: false,
        dir: Some("proj".to_string()),
        jotfile: None,
        shell: Some("bash".to_string()),
    };
    match run(cli, Some("build: echo building\n"), Some("/bin/zsh")) {
        Ok(Action::Execute(x)) => {
            assert_eq!(x.dir, "proj");
            assert_eq!(x.shell, "bash");
            assert_eq!(x.commands, texts(&["echo building"]));
        },
        _ => panic!("expected an execution"),
    }
}

#[test]
fn run_uses_the_platform_shell_by_default() {
    let cli = Jot { task: None, list: false, dir: None, jotfile: None, shell: None };
    match run(cli, Some("build: echo building\n"), Some("/bin/zsh")) {
        Ok(Action::Execute(x)) => {
            assert_eq!(x.dir, ".");
            assert_eq!(x.shell, "/bin/zsh");
            assert_eq!(x.commands, texts(&["jot -l"]));
        },
        _ => panic!("expected an execution"),
    }
}

#[test]
fn run_reports_an_unknown_task() {
    let cli = Jot { task: Some("nope".to_string()), list: false, dir: None, jotfile: None, shell: None };
    assert!(matches!(run(cli, Some("a: ls\n"), None), Err(RunError::Exec(ExecError::TaskNotFound))));
}

#[test]
fn run_lists_even_when_a_task_is_named() {
    let cli = Jot { task: Some("a".to_string()), list: true, dir: None, jotfile: None, shell: None };
    match run(cli, Some("a: ls\n"), None) {
        Ok(Action::List(model)) => assert_eq!(model.display_tasks(), Some(texts(&["a"]))),
        _ => panic!("expected a listing"),
    }
}

fn two_commands() -> Execution {
    Execution { dir: ".".to_string(), shell: "sh".to_string(), commands: texts(&["echo step1", "echo step2"]) }
}

#[test]
fn execution_enters_the_directory_first() {
    let x = two_commands();
    assert_eq!(
        x.advance(Stage::Start, Event::Begin),
        Turn { stage: Stage::Entering, report: None, order: Order::Enter }
    );
    assert_eq!(
        x.advance(Stage::Entering, Event::Entered),
        Turn { stage: Stage::Running(0), report: None, order: Order::Run(0) }
    );
}

#[test]
fn execution_runs_no_command_where_the_directory_fails() {
    let x = two_commands();
    assert_eq!(
        x.advance(Stage::Entering, Event::EnterFailed),
        Turn { stage: Stage::Aborted, report: Some(Fault::Directory), order: Order::Stop }
    );
    assert_eq!(
        x.advance(Stage::Aborted, Event::Ran),
        Turn { stage: Stage::Aborted, report: None, order: Order::Stop }
    );
}

#[test]
fn execution_runs_the_commands_in_order() {
    let x = two_commands();
    let mut stage = Stage::Start;
    let mut event = Event::Begin;
    let mut ran: Vec<String> = Vec::new();
    loop {
        let turn = x.advance(stage, event);
        assert_eq!(turn.report, None);
        stage = turn.stage;
        event = match turn.order {
            Order::Enter => Event::Entered,
            Order::Run(i) => {
                ran.push(x.commands[i].clone());
                Event::Ran
            },
            Order::Stop => break,
        };
    }
    assert_eq!(stage, Stage::Finished);
    assert_eq!(ran, texts(&["echo step1", "echo step2"]));
}

#[test]
fn execution_goes_on_after_a_failed_launch() {
    let x = two_commands();
    assert_eq!(
        x.advance(Stage::Running(0), Event::LaunchFailed),
        Turn { stage: Stage::Running(1), report: Some(Fault::Launch(0)), order: Order::Run(1) }
    );
    assert_eq!(
        x.advance(Stage::Running(1), Event::LaunchFailed),
        Turn { stage: Stage::Finished, report: Some(Fault::Launch(1)), order: Order::Stop }
    );
    assert_eq!(
        x.advance(Stage::Running(1), Event::Ran),
        Turn { stage: Stage::Finished, report: None, order: Order::Stop }
    );
}

#[test]
fn execution_stops_on_an_event_out_of_turn() {
    let x = two_commands();
    assert_eq!(
        x.advance(Stage::Start, Event::Ran),
        Turn { stage: Stage::Start, report: None, order: Order::Stop }
    );
    assert_eq!(
        x.advance(Stage::Running(7), Event::Ran),
        Turn { stage: Stage::Running(7), report: None, order: Order::Stop }
    );
    assert_eq!(
        x.advance(Stage::Finished, Event::Begin),
        Turn { stage: Stage::Finished, report: None, order: Order::Stop }
    );
}

#[test]
fn execution_without_commands_finishes_at_once() {
    let x = Execution { dir: ".".to_string(), shell: "sh".to_string(), commands: Vec::new() };
    assert_eq!(
        x.advance(Stage::Entering, Event::Entered),
        Turn { stage: Stage::Finished, report: None, order: Order::Stop }
    );
}
