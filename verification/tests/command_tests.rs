use rc9::command::{parse_command, CommandError};
use rc9::pipeline::{
    parse_pipeline, pipeline_succeeded, plan_change_directory, plan_process, DirectoryChange,
    StdinSource, StdoutTarget,
};
use rc9::shell::{Environment, Shell};

fn words(v: &[&str]) -> Vec<String> {
    v.iter().map(|s| s.to_string()).collect()
}

fn environment() -> Environment {
    let mut env = Environment::new();
    env.set_variable("HOME".to_string(), "/home/ann".to_string());
    env
}

#[test]
fn plain_command() {
    let c = parse_command(&words(&["ls", "-l", "/tmp"])).unwrap();
    assert_eq!(c.command, "ls");
    assert_eq!(c.args, words(&["-l", "/tmp"]));
    assert_eq!(c.input, None);
    assert_eq!(c.output, None);
    assert!(!c.append);
}

#[test]
fn redirections_are_taken_out() {
    let c = parse_command(&words(&["sort", "<", "in", "-r", ">>", "out"])).unwrap();
    assert_eq!(c.args, words(&["-r"]));
    assert_eq!(c.input, Some("in".to_string()));
    assert_eq!(c.output, Some("out".to_string()));
    assert!(c.append);
}

#[test]
fn last_redirection_wins() {
    let c = parse_command(&words(&["cmd", ">>", "a", ">", "b", "<", "c", "<", "d"])).unwrap();
    assert_eq!(c.output, Some("b".to_string()));
    assert!(!c.append);
    assert_eq!(c.input, Some("d".to_string()));
    assert!(c.args.is_empty());
}

#[test]
fn redirection_takes_an_operator_as_file() {
    let c = parse_command(&words(&["cmd", "<", ">"])).unwrap();
    assert_eq!(c.input, Some(">".to_string()));
    assert!(c.args.is_empty());
}

#[test]
fn command_name_is_not_a_redirection() {
    let c = parse_command(&words(&["<", "x"])).unwrap();
    assert_eq!(c.command, "<");
    assert_eq!(c.args, words(&["x"]));
}

#[test]
fn command_errors() {
    assert_eq!(parse_command(&Vec::new()).err(), Some(CommandError::Empty));
    assert_eq!(parse_command(&words(&["cat", "<"])).err(), Some(CommandError::MissingInputFile));
    assert_eq!(parse_command(&words(&["cat", ">"])).err(), Some(CommandError::MissingOutputFile));
    assert_eq!(parse_command(&words(&["cat", ">>"])).err(), Some(CommandError::MissingAppendFile));
}

#[test]
fn command_error_messages() {
    assert_eq!(CommandError::Empty.message(), None);
    assert_eq!(CommandError::MissingInputFile.message(), Some("rc9: expected file after '<'".to_string()));
    assert_eq!(CommandError::MissingOutputFile.message(), Some("rc9: expected file after '>'".to_string()));
    assert_eq!(CommandError::MissingAppendFile.message(), Some("rc9: expected file after '>>'".to_string()));
}

#[test]
fn pipeline_reads_every_command() {
    let specs = parse_pipeline(&vec![words(&["ls"]), words(&["wc", "-l"])]).unwrap();
    assert_eq!(specs.len(), 2);
    assert_eq!(specs[1].command, "wc");
}

#[test]
fn pipeline_errors() {
    assert_eq!(parse_pipeline(&Vec::new()).err(), Some(CommandError::Empty));
    assert_eq!(
        parse_pipeline(&vec![words(&["ls"]), words(&["cat", ">"]), words(&["x", "<"])]).err(),
        Some(CommandError::MissingOutputFile)
    );
}

#[test]
fn change_directory_plans() {
    let shell = Shell::new();
    let env = environment();
    let cd_home = parse_pipeline(&vec![words(&["cd"])]).unwrap();
    match plan_change_directory(&shell, &cd_home, &env) {
        Some(DirectoryChange::To(p)) => assert_eq!(p, "/home/ann"),
        _ => panic!("expected a change to HOME"),
    }
    let cd_tmp = parse_pipeline(&vec![words(&["cd", "/tmp"])]).unwrap();
    match plan_change_directory(&shell, &cd_tmp, &env) {
        Some(DirectoryChange::To(p)) => assert_eq!(p, "/tmp"),
        _ => panic!("expected a change to /tmp"),
    }
    assert!(matches!(plan_change_directory(&shell, &cd_home, &Environment::new()), Some(DirectoryChange::Stay)));
    let mut with_empty = Shell::new();
    with_empty.set_variable("d", Vec::new());
    let cd_empty = parse_pipeline(&vec![words(&["cd", "$d"])]).unwrap();
    assert!(matches!(plan_change_directory(&with_empty, &cd_empty, &env), Some(DirectoryChange::Fail)));
    let not_cd = parse_pipeline(&vec![words(&["cd"]), words(&["cat"])]).unwrap();
    assert!(plan_change_directory(&shell, &not_cd, &env).is_none());
    let ls = parse_pipeline(&vec![words(&["ls"])]).unwrap();
    assert!(plan_change_directory(&shell, &ls, &env).is_none());
}

#[test]
fn plain_pipeline_is_connected() {
    let shell = Shell::new();
    let env = environment();
    let specs = parse_pipeline(&vec![words(&["a"]), words(&["b", "x"]), words(&["c"])]).unwrap();
    let first = plan_process(&shell, &specs[0], 0, 3, false, &env).unwrap();
    assert!(matches!(first.stdin, StdinSource::Inherit));
    assert!(matches!(first.stdout, StdoutTarget::Pipe));
    assert!(first.pipe_pending);
    let second = plan_process(&shell, &specs[1], 1, 3, first.pipe_pending, &env).unwrap();
    assert_eq!(second.program, "b");
    assert_eq!(second.args, words(&["x"]));
    assert!(matches!(second.stdin, StdinSource::Pipe));
    assert!(matches!(second.stdout, StdoutTarget::Pipe));
    let third = plan_process(&shell, &specs[2], 2, 3, second.pipe_pending, &env).unwrap();
    assert!(matches!(third.stdin, StdinSource::Pipe));
    assert!(matches!(third.stdout, StdoutTarget::Inherit));
    assert!(!third.pipe_pending);
}

#[test]
fn redirected_process_plans() {
    let mut shell = Shell::new();
    shell.set_variable("f", words(&["out.txt", "ignored"]));
    shell.set_variable("args", words(&["-a", "-b"]));
    let env = environment();
    let specs = parse_pipeline(&vec![
        words(&["a", ">", "$f"]),
        words(&["b", "$args", "<", "in"]),
        words(&["c", ">>", "log"]),
    ])
    .unwrap();
    let first = plan_process(&shell, &specs[0], 0, 3, false, &env).unwrap();
    assert!(matches!(&first.stdout, StdoutTarget::Create(p) if p == "out.txt"));
    assert!(!first.pipe_pending);
    let second = plan_process(&shell, &specs[1], 1, 3, true, &env).unwrap();
    assert_eq!(second.args, words(&["-a", "-b"]));
    assert!(matches!(&second.stdin, StdinSource::File(p) if p == "in"));
    assert!(second.pipe_pending);
    let third = plan_process(&shell, &specs[2], 2, 3, false, &env).unwrap();
    assert!(matches!(third.stdin, StdinSource::Null));
    assert!(matches!(&third.stdout, StdoutTarget::Append(p) if p == "log"));
}

#[test]
fn unresolvable_words_stop_the_plan() {
    let mut shell = Shell::new();
    shell.set_variable("none", Vec::new());
    let env = environment();
    let specs = parse_pipeline(&vec![
        words(&["$none"]),
        words(&["cat", "<", "$none"]),
        words(&["cat", ">", "$none"]),
    ])
    .unwrap();
    assert!(plan_process(&shell, &specs[0], 0, 3, false, &env).is_none());
    assert!(plan_process(&shell, &specs[1], 1, 3, false, &env).is_none());
    let third = plan_process(&shell, &specs[2], 2, 3, false, &env).unwrap();
    assert!(matches!(third.stdout, StdoutTarget::Unresolved));
}

#[test]
fn pipeline_status() {
    assert!(pipeline_succeeded(&vec![]));
    assert!(pipeline_succeeded(&vec![true, true]));
    assert!(!pipeline_succeeded(&vec![true, false, true]));
}

#[test]
fn pipe_skips_a_process_reading_a_file() {
    let shell = Shell::new();
    let env = environment();
    let specs = parse_pipeline(&vec![
        words(&["a"]),
        words(&["b", "<", "f", ">", "g"]),
        words(&["c"]),
    ])
    .unwrap();
    let first = plan_process(&shell, &specs[0], 0, 3, false, &env).unwrap();
    let second = plan_process(&shell, &specs[1], 1, 3, first.pipe_pending, &env).unwrap();
    assert!(matches!(&second.stdin, StdinSource::File(p) if p == "f"));
    assert!(matches!(&second.stdout, StdoutTarget::Create(p) if p == "g"));
    assert!(second.pipe_pending);
    let third = plan_process(&shell, &specs[2], 2, 3, second.pipe_pending, &env).unwrap();
    assert!(matches!(third.stdin, StdinSource::Pipe));
}
