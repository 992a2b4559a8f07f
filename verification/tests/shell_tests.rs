use rc9::shell::{expand_environment_variable, is_known_environment_name, Environment, Shell};

fn words(v: &[&str]) -> Vec<String> {
    v.iter().map(|s| s.to_string()).collect()
}

fn sample_environment() -> Environment {
    let mut env = Environment::new();
    env.set_variable("HOME".to_string(), "/home/ann".to_string());
    env.set_variable("FOO".to_string(), "bar".to_string());
    env.set_working_directory(Some("/tmp/work".to_string()));
    env
}

#[test]
fn new_shell_has_no_variables() {
    let shell = Shell::new();
    assert!(shell.get_variable("x").is_none());
}

#[test]
fn variable_read_after_write() {
    let mut shell = Shell::new();
    shell.set_variable("x", words(&["a", "b"]));
    assert_eq!(shell.get_variable("x"), Some(&words(&["a", "b"])));
    assert!(shell.get_variable("y").is_none());
    shell.set_variable("x", words(&["c"]));
    assert_eq!(shell.get_variable("x"), Some(&words(&["c"])));
}

#[test]
fn setting_one_variable_keeps_others() {
    let mut shell = Shell::new();
    shell.set_variable("x", words(&["1"]));
    shell.set_variable("y", words(&["2"]));
    assert_eq!(shell.get_variable("x"), Some(&words(&["1"])));
    assert_eq!(shell.get_variable("y"), Some(&words(&["2"])));
}

#[test]
fn plain_word_expands_to_itself() {
    let shell = Shell::new();
    let env = sample_environment();
    assert_eq!(shell.expand("hello", &env), words(&["hello"]));
    assert_eq!(shell.expand("", &env), words(&[""]));
}

#[test]
fn shell_variable_expands_to_its_words() {
    let mut shell = Shell::new();
    shell.set_variable("list", words(&["a", "b", "c"]));
    let env = sample_environment();
    assert_eq!(shell.expand("$list", &env), words(&["a", "b", "c"]));
}

#[test]
fn empty_list_variable_expands_to_nothing() {
    let mut shell = Shell::new();
    shell.set_variable("none", Vec::new());
    let env = sample_environment();
    assert_eq!(shell.expand("$none", &env), Vec::<String>::new());
}

#[test]
fn shell_variable_shadows_environment() {
    let mut shell = Shell::new();
    shell.set_variable("HOME", words(&["/elsewhere"]));
    let env = sample_environment();
    assert_eq!(shell.expand("$HOME", &env), words(&["/elsewhere"]));
}

#[test]
fn known_environment_variable_expands() {
    let shell = Shell::new();
    let env = sample_environment();
    assert_eq!(shell.expand("$HOME", &env), words(&["/home/ann"]));
    assert_eq!(shell.expand("$USER", &env), words(&[""]));
}

#[test]
fn unknown_environment_variable_stays() {
    let shell = Shell::new();
    let env = sample_environment();
    assert_eq!(shell.expand("$FOO", &env), words(&["$FOO"]));
}

#[test]
fn pwd_is_the_working_directory() {
    let env = sample_environment();
    assert_eq!(expand_environment_variable("$PWD", &env), "/tmp/work");
    let mut unknown = Environment::new();
    unknown.set_variable("PWD".to_string(), "/from/env".to_string());
    assert_eq!(expand_environment_variable("$PWD", &unknown), "");
}

#[test]
fn expand_environment_variable_cases() {
    let env = sample_environment();
    assert_eq!(expand_environment_variable("$HOME", &env), "/home/ann");
    assert_eq!(expand_environment_variable("$XDG_RUNTIME_DIR", &env), "");
    assert_eq!(expand_environment_variable("HOME", &env), "HOME");
    assert_eq!(expand_environment_variable("$", &env), "$");
}

#[test]
fn known_names() {
    assert!(is_known_environment_name("EDITOR"));
    assert!(is_known_environment_name("XDG_DATA_HOME"));
    assert!(!is_known_environment_name("PWD"));
    assert!(!is_known_environment_name("home"));
}

#[test]
fn environment_lookup() {
    let env = sample_environment();
    assert_eq!(env.lookup("FOO"), Some("bar".to_string()));
    assert_eq!(env.lookup("BAR"), None);
    assert_eq!(env.working_directory(), Some("/tmp/work".to_string()));
}

#[test]
fn variable_read_after_writes() {
    let mut shell = Shell::new();
    shell.set_variable("a", words(&["1"]));
    shell.set_variable("b", words(&["2"]));
    shell.set_variable("a", words(&["3", "4"]));
    shell.set_variable("c", Vec::new());
    assert_eq!(shell.get_variable("a"), Some(&words(&["3", "4"])));
    assert_eq!(shell.get_variable("b"), Some(&words(&["2"])));
    assert_eq!(shell.get_variable("c"), Some(&Vec::new()));
    assert!(shell.get_variable("d").is_none());
}
