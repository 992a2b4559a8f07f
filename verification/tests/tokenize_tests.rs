use rc9::tokenize::{needs_more_input, tokenize, tokenize_chars};

fn words(v: &[&str]) -> Vec<String> {
    v.iter().map(|s| s.to_string()).collect()
}

#[test]
fn splits_on_whitespace() {
    assert_eq!(tokenize("echo  hello\tworld\n"), words(&["echo", "hello", "world"]));
}

#[test]
fn empty_and_blank_lines_give_no_tokens() {
    assert_eq!(tokenize(""), Vec::<String>::new());
    assert_eq!(tokenize("   \t "), Vec::<String>::new());
}

#[test]
fn double_quotes_keep_spaces_and_operators() {
    assert_eq!(tokenize("echo \"a b | c\""), words(&["echo", "a b | c"]));
}

#[test]
fn single_quotes_keep_double_quotes() {
    assert_eq!(tokenize("echo 'say \"hi\"'"), words(&["echo", "say \"hi\""]));
}

#[test]
fn double_quotes_keep_single_quotes() {
    assert_eq!(tokenize("echo \"it's\""), words(&["echo", "it's"]));
}

#[test]
fn quoted_empty_string_gives_no_token() {
    assert_eq!(tokenize("echo \"\""), words(&["echo"]));
}

#[test]
fn backslash_takes_next_character() {
    assert_eq!(tokenize("echo a\\ b \\|"), words(&["echo", "a b", "|"]));
}

#[test]
fn backslash_inside_single_quotes_still_escapes() {
    assert_eq!(tokenize("echo 'a\\'b'"), words(&["echo", "a'b"]));
}

#[test]
fn operators_are_tokens_of_their_own() {
    assert_eq!(
        tokenize("a&&b||c|d>e>>f<g;h"),
        words(&["a", "&&", "b", "||", "c", "|", "d", ">", "e", ">>", "f", "<", "g", ";", "h"])
    );
}

#[test]
fn lone_ampersand_starts_a_word() {
    assert_eq!(tokenize("a&b"), words(&["a", "&b"]));
    assert_eq!(tokenize("a & b"), words(&["a", "&", "b"]));
}

#[test]
fn assignment_tokens() {
    assert_eq!(tokenize("x=(a b)"), words(&["x", "=", "(", "a", "b", ")"]));
}

#[test]
fn operators_inside_quotes_are_text() {
    assert_eq!(tokenize("'a;b' \"c=d\""), words(&["a;b", "c=d"]));
}

#[test]
fn tokenize_chars_uses_given_whitespace_flags() {
    let chars = vec!['a', 'x', 'b'];
    let ws = vec![false, true, false];
    assert_eq!(tokenize_chars(&chars, &ws), words(&["a", "b"]));
}

#[test]
fn non_ascii_whitespace_separates_words() {
    assert_eq!(tokenize("a\u{A0}b\u{3000}c"), words(&["a", "b", "c"]));
}

#[test]
fn open_quotes_need_more_input() {
    assert!(needs_more_input("echo 'abc"));
    assert!(needs_more_input("echo \"abc"));
    assert!(!needs_more_input("echo \"a'bc\""));
}

#[test]
fn open_parenthesis_needs_more_input() {
    assert!(needs_more_input("x = (a b"));
    assert!(!needs_more_input("x = (a b)"));
    assert!(!needs_more_input("echo )"));
    assert!(needs_more_input("echo ) ("));
}

#[test]
fn quoted_or_escaped_parenthesis_does_not_count() {
    assert!(!needs_more_input("echo '('"));
    assert!(!needs_more_input("echo \\("));
    assert!(!needs_more_input("echo \\'"));
}

#[test]
fn complete_line_tokenizes_with_quotes_closed() {
    let line = "echo 'a b' \"c d\"";
    assert!(!needs_more_input(line));
    assert_eq!(tokenize(line), words(&["echo", "a b", "c d"]));
}

#[test]
fn tokens_keep_every_non_whitespace_character() {
    let line = "ls -l|wc>out&&a&b ; (x=y)<in";
    let joined: String = tokenize(line).concat();
    let expected: String = line.chars().filter(|c| !c.is_whitespace()).collect();
    assert_eq!(joined, expected);
}

#[test]
fn retokenizing_joined_tokens_gives_them_back() {
    for line in ["a&b &&& c", "x=(1 2)>>log", "a||b|c;d", "&x&&", "  "] {
        let tokens = tokenize(line);
        assert_eq!(tokenize(&tokens.join(" ")), tokens);
    }
}

#[test]
fn line_then_space_splits_tokens() {
    let a = "echo 'a b' x&";
    let b = "&y | z";
    let mut expected = tokenize(a);
    expected.extend(tokenize(b));
    assert_eq!(tokenize(&format!("{} {}", a, b)), expected);
    assert_eq!(tokenize(&format!(" {}", b)), tokenize(b));
}

#[test]
fn quoted_word_is_one_token() {
    assert_eq!(tokenize("\"a |b;'c'\""), words(&["a |b;'c'"]));
    assert_eq!(tokenize("' x \"y\" '"), words(&[" x \"y\" "]));
    assert_eq!(tokenize("''"), Vec::<String>::new());
}

#[test]
fn tab_and_other_whitespace_separate_words() {
    assert_eq!(tokenize("a\tb\u{2003}c\u{85}d"), words(&["a", "b", "c", "d"]));
    assert_eq!(tokenize("a\u{200B}b"), words(&["a\u{200B}b"]));
}
