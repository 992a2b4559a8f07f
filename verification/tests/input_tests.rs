use rc9::input::{chain_should_run, prepare_input, prepare_tokens, ChainOperator, InputAction, InputError};
use rc9::lines::{is_blank, is_exit_command, rc_commands, rc_commands_flagged, trim, trim_flagged};
use rc9::shell::Shell;

fn words(v: &[&str]) -> Vec<String> {
    v.iter().map(|s| s.to_string()).collect()
}

#[test]
fn empty_line_does_nothing() {
    let mut shell = Shell::new();
    assert!(matches!(prepare_input(&mut shell, "   "), InputAction::Nothing));
}

#[test]
fn assignment_joins_words() {
    let mut shell = Shell::new();
    assert!(matches!(prepare_input(&mut shell, "greeting = hello  big world"), InputAction::Assigned));
    assert_eq!(shell.get_variable("greeting"), Some(&words(&["hello big world"])));
}

#[test]
fn list_assignment() {
    let mut shell = Shell::new();
    assert!(matches!(prepare_input(&mut shell, "path=(/bin /usr/bin) rest"), InputAction::Assigned));
    assert_eq!(shell.get_variable("path"), Some(&words(&["/bin", "/usr/bin"])));
}

#[test]
fn empty_list_assignment() {
    let mut shell = Shell::new();
    assert!(matches!(prepare_input(&mut shell, "x = ()"), InputAction::Assigned));
    assert_eq!(shell.get_variable("x"), Some(&Vec::new()));
}

#[test]
fn missing_parenthesis() {
    let mut shell = Shell::new();
    assert!(matches!(
        prepare_tokens(&mut shell, &words(&["x", "=", "(", "a"])),
        InputAction::Invalid(InputError::MissingParenthesis)
    ));
    assert!(shell.get_variable("x").is_none());
}

#[test]
fn short_assignment_is_a_command() {
    let mut shell = Shell::new();
    match prepare_input(&mut shell, "a =") {
        InputAction::Run(chain) => assert_eq!(chain.pipelines, vec![vec![words(&["a", "="])]]),
        _ => panic!("expected a chain"),
    }
}

#[test]
fn chain_of_pipelines() {
    let mut shell = Shell::new();
    match prepare_input(&mut shell, "ls | wc -l && echo ok || echo no ; date") {
        InputAction::Run(chain) => {
            assert_eq!(
                chain.pipelines,
                vec![
                    vec![words(&["ls"]), words(&["wc", "-l"])],
                    vec![words(&["echo", "ok"])],
                    vec![words(&["echo", "no"])],
                    vec![words(&["date"])],
                ]
            );
            assert_eq!(chain.operators, vec![ChainOperator::And, ChainOperator::Or, ChainOperator::Sequence]);
        }
        _ => panic!("expected a chain"),
    }
}

#[test]
fn chain_errors() {
    let mut shell = Shell::new();
    assert!(matches!(prepare_input(&mut shell, "| ls"), InputAction::Invalid(InputError::InvalidPipe)));
    assert!(matches!(prepare_input(&mut shell, "ls |"), InputAction::Invalid(InputError::InvalidPipe)));
    assert!(matches!(prepare_input(&mut shell, "ls | && x"), InputAction::Invalid(InputError::InvalidCommand)));
    assert!(matches!(prepare_input(&mut shell, "; ls"), InputAction::Invalid(InputError::InvalidCommand)));
    assert!(matches!(prepare_input(&mut shell, "ls ;"), InputAction::Invalid(InputError::InvalidChain)));
    assert!(matches!(prepare_input(&mut shell, "ls &&"), InputAction::Invalid(InputError::InvalidChain)));
}

#[test]
fn input_error_messages() {
    assert_eq!(InputError::MissingParenthesis.message(), "rc9: expected ')'");
    assert_eq!(InputError::InvalidPipe.message(), "rc9: invalid pipe");
    assert_eq!(InputError::InvalidCommand.message(), "rc9: invalid command");
    assert_eq!(InputError::InvalidChain.message(), "rc9: invalid command chain");
}

#[test]
fn chain_runs_by_status() {
    let ops = vec![ChainOperator::And, ChainOperator::Or, ChainOperator::Sequence];
    assert!(chain_should_run(&ops, 0, false));
    assert!(chain_should_run(&ops, 1, true));
    assert!(!chain_should_run(&ops, 1, false));
    assert!(!chain_should_run(&ops, 2, true));
    assert!(chain_should_run(&ops, 2, false));
    assert!(chain_should_run(&ops, 3, false));
    assert!(chain_should_run(&ops, 3, true));
}

#[test]
fn assignment_then_expansion() {
    let mut shell = Shell::new();
    prepare_input(&mut shell, "files = (a.txt b.txt)");
    let env = rc9::shell::Environment::new();
    assert_eq!(shell.expand("$files", &env), words(&["a.txt", "b.txt"]));
}

#[test]
fn trimming() {
    assert_eq!(trim("  ls -l \t\r\n"), "ls -l");
    assert_eq!(trim(""), "");
    assert_eq!(trim(" \u{3000} "), "");
    assert!(is_blank(" \t "));
    assert!(!is_blank(" x "));
    assert!(is_exit_command("  exit \n"));
    assert!(!is_exit_command("exit now"));
}

#[test]
fn start_up_file_commands() {
    let contents = "x = (a b)\r\n\n   \n  echo $x  \nls";
    assert_eq!(rc_commands(contents), words(&["x = (a b)", "echo $x", "ls"]));
    assert_eq!(rc_commands(""), Vec::<String>::new());
    assert_eq!(rc_commands("a\n"), words(&["a"]));
}

#[test]
fn trim_uses_given_flags() {
    let chars = vec!['x', 'a', 'x', 'b', 'x'];
    let ws = vec![true, false, true, false, true];
    assert_eq!(trim_flagged(&chars, &ws), vec!['a', 'x', 'b']);
}

#[test]
fn carriage_return_is_dropped_only_before_a_line_feed() {
    let chars: Vec<char> = "a\r\nb\r".chars().collect();
    let ws = vec![false; chars.len()];
    assert_eq!(rc_commands_flagged(&chars, &ws), words(&["a", "b\r"]));
}
