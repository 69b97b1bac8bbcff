use jot::engine::{run, Action, Jot, RunError};
use jot::error::{JotError, ParseError, ParseErrorKind};
use jot::model::Jotfile;
use jot::parser::Parser;

fn load(content: &str) -> Jotfile {
    let mut model = Jotfile::new(None, None, None);
    model.get_tasks_from_jotfile(content, None).unwrap();
    model
}

fn load_error(content: &str) -> JotError {
    let mut model = Jotfile::new(None, None, None);
    model.get_tasks_from_jotfile(content, None).unwrap_err()
}

fn parse_error(content: &str) -> ParseError {
    match load_error(content) {
        JotError::Parse(e) => e,
        JotError::Reference(e) => panic!("unexpected reference error: {:?}", e),
    }
}

fn strings(items: &[&str]) -> Vec<String> {
    items.iter().map(|s| s.to_string()).collect()
}

#[test]
fn single_line_task_has_one_trimmed_command() {
    let model = load("build: echo building\n");
    assert_eq!(model.tasks.get("build"), Some(&strings(&["echo building"])));
    assert_eq!(model.tasks.keys, strings(&["build"]));
}

#[test]
fn single_line_task_is_trimmed_on_both_sides() {
    let model = load("   test  :    cargo test --all   \t\n");
    assert_eq!(model.tasks.get("test"), Some(&strings(&["cargo test --all"])));
}

#[test]
fn task_line_splits_at_the_first_colon() {
    let model = load("show: echo a:b:c");
    assert_eq!(model.tasks.get("show"), Some(&strings(&["echo a:b:c"])));
}

#[test]
fn multi_line_task_collects_until_semicolon() {
    let model = load("deploy:\n  echo step1\n  echo step2;\n");
    assert_eq!(model.tasks.get("deploy"), Some(&strings(&["echo step1", "echo step2"])));
}

#[test]
fn multi_line_task_skips_blank_and_comment_lines() {
    let model = load("deploy:\n\n  echo one\n  # not a command\n  echo two\n\n  echo three ;\nnext: ls\n");
    assert_eq!(model.tasks.get("deploy"), Some(&strings(&["echo one", "echo two", "echo three"])));
    assert_eq!(model.tasks.get("next"), Some(&strings(&["ls"])));
}

#[test]
fn multi_line_task_strips_every_trailing_semicolon() {
    let model = load("t:\n  echo x ;;;\n");
    assert_eq!(model.tasks.get("t"), Some(&strings(&["echo x"])));
}

#[test]
fn multi_line_task_may_end_with_the_file() {
    let model = load("t:\n  echo one\n  echo two");
    assert_eq!(model.tasks.get("t"), Some(&strings(&["echo one", "echo two"])));
}

#[test]
fn multi_line_task_swallows_following_lines_without_semicolon() {
    let model = load("t:\n  echo one\nother: ls;\nlast: pwd\n");
    assert_eq!(model.tasks.get("t"), Some(&strings(&["echo one", "other: ls"])));
    assert_eq!(model.tasks.get("other"), None);
    assert_eq!(model.tasks.get("last"), Some(&strings(&["pwd"])));
}

#[test]
fn task_without_command_is_refused() {
    let e = parse_error("a: ls\nempty:\n\n# nothing\n");
    assert_eq!(e, ParseError { kind: ParseErrorKind::MissingCommand, line: 2 });
}

#[test]
fn uppercase_key_is_a_config() {
    let model = load(".SHELL =   bash  \n");
    assert_eq!(model.configs.get("SHELL"), Some(&"bash".to_string()));
    assert_eq!(model.vars.get("SHELL"), None);
}

#[test]
fn lowercase_key_is_a_variable() {
    let model = load(".name = some value\n");
    assert_eq!(model.vars.get("name"), Some(&"some value".to_string()));
    assert_eq!(model.configs.get("name"), None);
}

#[test]
fn mixed_case_key_is_a_variable() {
    let model = load(".Name = v\n.WITH_UNDERSCORE = w\n");
    assert_eq!(model.vars.get("Name"), Some(&"v".to_string()));
    assert_eq!(model.vars.get("WITH_UNDERSCORE"), Some(&"w".to_string()));
    assert_eq!(model.configs.get("WITH_UNDERSCORE"), None);
}

#[test]
fn variable_value_keeps_later_equal_signs() {
    let model = load(".opts = a=b=c\n");
    assert_eq!(model.vars.get("opts"), Some(&"a=b=c".to_string()));
}

#[test]
fn variable_line_wins_over_task_and_section() {
    let model = load(".x = build: thing\n");
    assert_eq!(model.vars.get("x"), Some(&"build: thing".to_string()));
    assert_eq!(model.tasks.keys.len(), 0);
}

#[test]
fn later_setting_replaces_earlier() {
    let model = load(".SHELL = bash\n.SHELL = zsh\n");
    assert_eq!(model.configs.get("SHELL"), Some(&"zsh".to_string()));
}

#[test]
fn variable_without_equal_sign_is_refused() {
    let e = parse_error("a: ls\n\n.novalue\n");
    assert_eq!(e, ParseError { kind: ParseErrorKind::InvalidVariable, line: 3 });
}

#[test]
fn variable_without_value_is_refused() {
    let e = parse_error(".x =   \n");
    assert_eq!(e, ParseError { kind: ParseErrorKind::MissingValue, line: 1 });
}

#[test]
fn unclassifiable_line_is_refused() {
    let e = parse_error("# fine\nbuild: ls\njust some words\n");
    assert_eq!(e, ParseError { kind: ParseErrorKind::InvalidLine, line: 3 });
}

#[test]
fn section_without_name_is_refused() {
    let e = parse_error("group = \"\"\n");
    assert_eq!(e, ParseError { kind: ParseErrorKind::MissingSectionName, line: 1 });
    let e = parse_error("group =\n");
    assert_eq!(e, ParseError { kind: ParseErrorKind::MissingSectionName, line: 1 });
}

#[test]
fn section_lists_the_tasks_declared_under_it() {
    let model = load("group = \"Build\"\ncompile: echo compiling\n");
    assert_eq!(model.sections.get("Build"), Some(&strings(&["compile"])));
    assert_eq!(model.tasks.get("compile"), Some(&strings(&["echo compiling"])));
}

#[test]
fn task_before_any_section_is_in_no_section() {
    let model = load("free: ls\ns = \"One\"\na: ls\nb: ls\ns = \"Two\"\nc: ls\n");
    assert_eq!(model.sections.get("One"), Some(&strings(&["a", "b"])));
    assert_eq!(model.sections.get("Two"), Some(&strings(&["c"])));
    assert!(!model.is_listed("free"));
    assert!(model.is_listed("a"));
    assert_eq!(model.sections.keys, strings(&["One", "Two"]));
}

#[test]
fn section_name_may_be_unquoted_and_reopened() {
    let model = load("s = Tools\na: ls\ns = \"Other\"\nb: ls\ns = \"Tools\"\nc: ls\n");
    assert_eq!(model.sections.get("Tools"), Some(&strings(&["a", "c"])));
    assert_eq!(model.sections.get("Other"), Some(&strings(&["b"])));
}

#[test]
fn empty_section_is_kept() {
    let model = load("s = \"Empty\"\n");
    assert_eq!(model.sections.get("Empty"), Some(&Vec::<String>::new()));
}

#[test]
fn equal_sign_is_looked_for_before_colon() {
    let model = load("s = \"a: b\"\nt: ls\n");
    assert_eq!(model.sections.get("a: b"), Some(&strings(&["t"])));
    assert_eq!(model.tasks.get("s"), None);
}

#[test]
fn reference_is_rewritten_to_an_invocation() {
    let model = load("build: echo building\nall: @build\n");
    assert_eq!(model.tasks.get("all"), Some(&strings(&["jot build"])));
    assert!(!model.tasks.get("all").unwrap()[0].contains('@'));
    assert_eq!(model.tasks.get("build"), Some(&strings(&["echo building"])));
}

#[test]
fn every_sigil_of_a_reference_command_is_rewritten() {
    let model = load("a: ls\nb:\n  @@a;\n");
    assert_eq!(model.tasks.get("b"), Some(&strings(&["jot jot a"])));
}

#[test]
fn reference_to_itself_is_accepted() {
    let model = load("loop: @loop\n");
    assert_eq!(model.tasks.get("loop"), Some(&strings(&["jot loop"])));
}

#[test]
fn command_that_is_no_reference_is_left_alone() {
    let model = load("mail: echo admin@example.com\nsay: echo @nowhere\nall:\n  echo a@b\n  @mail;\n");
    assert_eq!(model.tasks.get("mail"), Some(&strings(&["echo admin@example.com"])));
    assert_eq!(model.tasks.get("say"), Some(&strings(&["echo @nowhere"])));
    assert_eq!(model.tasks.get("all"), Some(&strings(&["echo a@b", "jot mail"])));
}

#[test]
fn reference_target_is_trimmed() {
    let model = load("build: ls\nall: @  build\n");
    assert_eq!(model.tasks.get("all"), Some(&strings(&["jot   build"])));
}

#[test]
fn reference_to_missing_task_is_refused() {
    match load_error("build: echo building\nall:\n  echo first\n  @missing;\n") {
        JotError::Reference(e) => {
            assert_eq!(e.task, "all");
            assert_eq!(e.target, "missing");
        },
        JotError::Parse(e) => panic!("unexpected parse error: {:?}", e),
    }
}

#[test]
fn failed_resolution_leaves_the_model_as_parsed() {
    let mut model = Jotfile::new(None, None, None);
    model.add_task("a".to_string(), strings(&["@a", "@nowhere"]), None);
    let parser = Parser::new();
    assert!(parser.unpack_self_references(&mut model).is_err());
    assert_eq!(model.tasks.get("a"), Some(&strings(&["@a", "@nowhere"])));
}

#[test]
fn defaults_are_filled_after_loading() {
    let model = load("a: ls\n");
    assert_eq!(model.configs.get("SHELL"), Some(&"sh".to_string()));
    assert_eq!(model.configs.get("DEFAULT"), Some(&"jot -l".to_string()));
}

#[test]
fn platform_shell_is_the_default_shell() {
    let mut model = Jotfile::new(None, None, None);
    model.get_tasks_from_jotfile("a: ls\n", Some("/bin/zsh")).unwrap();
    assert_eq!(model.configs.get("SHELL"), Some(&"/bin/zsh".to_string()));
}

#[test]
fn defaults_do_not_replace_what_the_file_says() {
    let mut model = Jotfile::new(None, None, None);
    model.get_tasks_from_jotfile(".SHELL = fish\n.DEFAULT = echo hi\n", Some("/bin/zsh")).unwrap();
    assert_eq!(model.configs.get("SHELL"), Some(&"fish".to_string()));
    assert_eq!(model.configs.get("DEFAULT"), Some(&"echo hi".to_string()));
}

#[test]
fn filling_twice_changes_nothing() {
    let mut model = Jotfile::new(None, None, None);
    let parser = Parser::new();
    parser.fill_default_options(&mut model, Some("bash"));
    assert_eq!(model.configs.get("SHELL"), Some(&"bash".to_string()));
    assert_eq!(model.configs.get("DEFAULT"), Some(&"jot -l".to_string()));
    parser.fill_default_options(&mut model, Some("zsh"));
    assert_eq!(model.configs.get("SHELL"), Some(&"bash".to_string()));
    assert_eq!(model.configs.get("DEFAULT"), Some(&"jot -l".to_string()));
    assert_eq!(model.configs.keys.len(), 2);
}

#[test]
fn crlf_line_endings_are_accepted() {
    let model = load("build: echo building\r\ndeploy:\r\n  one\r\n  two;\r\n");
    assert_eq!(model.tasks.get("build"), Some(&strings(&["echo building"])));
    assert_eq!(model.tasks.get("deploy"), Some(&strings(&["one", "two"])));
}

#[test]
fn parser_keeps_the_lines_it_was_given() {
    let mut model = Jotfile::new(None, None, None);
    let mut parser = Parser::new();
    parser.parse("a: ls\r\n\n  b: pwd  ", None, &mut model).unwrap();
    assert_eq!(parser.lines, strings(&["a: ls", "", "  b: pwd  "]));
    assert_eq!(parser.line_index, 3);
}

#[test]
fn line_parsers_move_the_cursor() {
    let mut model = Jotfile::new(None, None, None);
    let mut parser = Parser::new();
    parser.lines = strings(&[".KEY = v", "s = \"Sec\"", "t:", "  one", "  two;", "u: x"]);
    assert_eq!(parser.parse_var_line(&mut model), Ok(()));
    assert_eq!(parser.line_index, 1);
    assert_eq!(parser.parse_section_line(&mut model), Ok(()));
    assert_eq!(parser.line_index, 2);
    assert_eq!(parser.current_section, Some("Sec".to_string()));
    assert_eq!(parser.parse_task_line(&mut model), Ok(()));
    assert_eq!(parser.line_index, 5);
    assert_eq!(parser.parse_task_line(&mut model), Ok(()));
    assert_eq!(parser.line_index, 6);
    assert_eq!(model.configs.get("KEY"), Some(&"v".to_string()));
    assert_eq!(model.sections.get("Sec"), Some(&strings(&["t", "u"])));
    assert_eq!(model.tasks.get("t"), Some(&strings(&["one", "two"])));
}

#[test]
fn collecting_starts_after_the_header() {
    let mut parser = Parser::new();
    parser.lines = strings(&["t:", "", "a", "# c", "b ;", "after"]);
    assert_eq!(parser.collect_multiline_command(), strings(&["a", "b"]));
    assert_eq!(parser.line_index, 5);
}

#[test]
fn split_task_line_reports_the_cursor_line() {
    let mut parser = Parser::new();
    parser.lines = strings(&["x", "no colon here"]);
    parser.line_index = 1;
    assert_eq!(
        parser.split_task_line("no colon here"),
        Err(ParseError { kind: ParseErrorKind::InvalidTask, line: 2 })
    );
    assert_eq!(
        parser.split_task_line("name :  cmd  "),
        Ok(("name".to_string(), "cmd".to_string()))
    );
}

#[test]
fn empty_input_lists_nothing() {
    let cli = Jot { task: None, list: true, dir: None, jotfile: None, shell: None };
    match run(cli, Some("# only a comment\n\n.x = 1\n"), None) {
        Ok(Action::List(model)) => assert_eq!(model.display_tasks(), None),
        _ => panic!("expected a listing"),
    }
}

#[test]
fn unreadable_taskfile_is_an_error_whatever_is_asked() {
    let cli = Jot { task: None, list: true, dir: None, jotfile: None, shell: None };
    assert!(matches!(run(cli, None, None), Err(RunError::Unreadable)));
    let cli = Jot { task: None, list: false, dir: None, jotfile: None, shell: None };
    assert!(matches!(run(cli, None, Some("sh")), Err(RunError::Unreadable)));
    let cli = Jot { task: Some("a".to_string()), list: false, dir: None, jotfile: None, shell: None };
    assert!(matches!(run(cli, None, None), Err(RunError::Unreadable)));
}

#[test]
fn run_reports_a_failed_load() {
    let cli = Jot { task: Some("a".to_string()), list: false, dir: None, jotfile: None, shell: None };
    match run(cli, Some("a: ls\nrubbish\n"), None) {
        Err(RunError::Load(JotError::Parse(e))) => {
            assert_eq!(e, ParseError { kind: ParseErrorKind::InvalidLine, line: 2 })
        },
        _ => panic!("expected a parse error"),
    }
}
