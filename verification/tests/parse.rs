use minishell::parse::{parse_line, try_parse_line, Fragment};

fn words(s: &str) -> Vec<String> {
    parse_line(s)
        .into_iter()
        .filter_map(|f| match f {
            Fragment::Word(s) => Some(s),
            _ => None,
        })
        .collect::<Vec<_>>()
}

#[test]
fn parse_test() {
    let parse_line = words;

    // Consecutive spaces are collapsed unless quoted.
    assert_eq!(parse_line(r#"hello    world"#), ["hello", "world"]);

    // Spaces are preserved within quotes.
    assert_eq!(parse_line(r#"'hello    world'"#), ["hello    world"]);

    // Adjacent quoted strings 'hello' and 'world' are concatenated.
    assert_eq!(parse_line(r#"'hello''world'"#), ["helloworld"]);

    // Empty quotes '' are ignored.
    assert_eq!(parse_line(r#"hello''world"#), ["helloworld"]);

    // Spaces are preserved within double-quotes.
    assert_eq!(parse_line(r#""hello    world""#), ["hello    world"]);

    // Quoted strings next to each other are concatenated.
    assert_eq!(parse_line(r#""hello""world""#), ["helloworld"]);

    // Quoted and unquoted strings next to each other are concatenated.
    assert_eq!(parse_line(r#""hello"world"#), ["helloworld"]);

    // Separate arguments.
    assert_eq!(parse_line(r#""hello" "world""#), ["hello", "world"]);

    // Single quotes inside are literal.
    assert_eq!(parse_line(r#""shell's test""#), ["shell's test"]);

    // Each \ creates a literal space as part of one argument.
    assert_eq!(parse_line(r#"three\ \ \ spaces"#), ["three   spaces"]);

    // The backslash preserves the first space literally, but the shell collapses the subsequent unescaped spaces.
    assert_eq!(parse_line(r#"before\     after"#), ["before ", "after"]);
    assert_eq!(parse_line(r#"test\nexample"#), ["testnexample"]); // \n becomes just n.
    assert_eq!(parse_line(r#"hello\\world"#), ["hello\\world"]); // The first backslash escapes the second, and the result is a single literal backslash in the argument.
    assert_eq!(parse_line(r#"\'hello\'"#), ["'hello'"]); // \' makes the single quotes literal characters.

    // Backslashes have no special escaping behavior inside single quotes.
    // Every character (including backslashes) within single quotes is treated literally.
    assert_eq!(
        parse_line(r#"'multiple\\slashes'"#),
        ["multiple\\\\slashes"]
    );
    assert_eq!(
        parse_line(r#"'every\"thing_is\"literal'"#),
        ["every\\\"thing_is\\\"literal"]
    );

    // Within double quotes, a backslash only escapes certain special characters:
    //", \, $, `, and newline.
    assert_eq!(
        parse_line(r#""A \" inside double quotes""#),
        ["A \" inside double quotes"]
    );
    assert_eq!(
        parse_line(r#""A \\ escapes itself""#),
        ["A \\ escapes itself"]
    );
    assert_eq!(
        parse_line(r#""A \$ inside double quotes""#),
        ["A $ inside double quotes"]
    );
    assert_eq!(
        parse_line(r#""A \` inside double quotes""#),
        ["A ` inside double quotes"]
    );

    // For all other characters, the backslash is treated literally.
    assert_eq!(
        parse_line(r#""A \ is treated \l\i\t\e\r\a\l\l\y""#),
        [r#"A \ is treated \l\i\t\e\r\a\l\l\y"#]
    );
}

fn redirect(f: &Fragment) -> Option<(i32, String, bool)> {
    match f {
        Fragment::RedirectFd { fd, path, truncate } => Some((*fd, path.clone(), *truncate)),
        _ => None,
    }
}

#[test]
fn redirections_take_the_next_word() {
    let f = parse_line("echo hi > out.txt");
    assert_eq!(f.len(), 3);
    assert_eq!(redirect(&f[2]), Some((1, "out.txt".to_string(), true)));

    let f = parse_line("ls 2>> err.log 1>o");
    assert_eq!(f.len(), 3);
    assert_eq!(redirect(&f[1]), Some((2, "err.log".to_string(), false)));
    assert_eq!(redirect(&f[2]), Some((1, "o".to_string(), true)));

    let f = parse_line("a >>b");
    assert_eq!(redirect(&f[1]), Some((1, "b".to_string(), false)));

    let f = parse_line("a 2>b");
    assert_eq!(redirect(&f[1]), Some((2, "b".to_string(), true)));
}

#[test]
fn redirection_without_target_is_dropped() {
    let f = parse_line("echo hi >");
    assert_eq!(f.len(), 2);
    assert!(f.iter().all(|f| redirect(f).is_none()));
}

#[test]
fn blank_lines_give_nothing() {
    assert!(parse_line("").is_empty());
    assert!(parse_line("   \t  ").is_empty());
    assert!(parse_line("\u{a0}\u{3000}").is_empty());
}

#[test]
fn unicode_spaces_are_trimmed_at_the_ends_only() {
    assert_eq!(words("\u{2003}a b\u{2003}"), ["a", "b"]);
    assert_eq!(words("a\u{2003}b"), ["a\u{2003}b"]);
}

#[test]
fn tabs_separate_words() {
    assert_eq!(words("a\tb"), ["a", "b"]);
}

#[test]
fn unclosed_single_quote_keeps_the_quote() {
    assert_eq!(words("ab 'cd"), ["ab", "'cd"]);
}

#[test]
fn unclosed_double_quote_reads_the_rest_twice() {
    assert_eq!(words("\"abc"), ["abcabc"]);
    assert_eq!(words("\"a b"), ["a ba", "b"]);
}

#[test]
fn trailing_backslash_never_ends() {
    assert!(try_parse_line("echo \\").is_none());
    assert!(try_parse_line("echo \"\\").is_some());
    assert!(try_parse_line("echo '\\'").is_some());
}

#[test]
fn words_are_never_empty() {
    for line in ["''", "\"\"", "a '' b", "x \"\" y", "> ''"] {
        for f in parse_line(line) {
            match f {
                Fragment::Word(w) => assert!(!w.is_empty()),
                Fragment::RedirectFd { path, .. } => assert!(!path.is_empty()),
            }
        }
    }
}

#[test]
fn quoted_text_joins_the_word_it_touches() {
    assert_eq!(words(r#"a'b c'd"#), ["ab cd"]);
    assert_eq!(words(r#"a"b c"d e"#), ["ab cd", "e"]);
    assert_eq!(words(r#"'' x"#), ["x"]);
    assert_eq!(words(r#"'x''' 'y'"#), ["x", "y"]);
}

#[test]
fn backslash_outside_quotes_keeps_any_next_character() {
    assert_eq!(words(r#"a\>b"#), ["a>b"]);
    assert_eq!(words(r#"\"x\""#), ["\"x\""]);
    assert_eq!(words(r#"\\"#), ["\\"]);
}

#[test]
fn backslash_in_double_quotes_escapes_only_special_characters() {
    assert_eq!(words("\"\\\n\""), ["\n"]);
    assert_eq!(words(r#""\a\$\`""#), ["\\a$`"]);
    assert_eq!(words(r#""\'""#), ["\\'"]);
}

#[test]
fn an_operator_ends_the_word_before_it() {
    let f = parse_line("echo hi>out.txt");
    assert_eq!(f.len(), 3);
    assert!(matches!(&f[1], Fragment::Word(w) if w == "hi"));
    assert_eq!(redirect(&f[2]), Some((1, "out.txt".to_string(), true)));

    // A descriptor digit before `>` starts the operator, even inside a word.
    let f = parse_line("echo a2>b");
    assert_eq!(f.len(), 3);
    assert!(matches!(&f[1], Fragment::Word(w) if w == "a"));
    assert_eq!(redirect(&f[2]), Some((2, "b".to_string(), true)));
    let f = parse_line("x1>>y");
    assert!(matches!(&f[0], Fragment::Word(w) if w == "x"));
    assert_eq!(redirect(&f[1]), Some((1, "y".to_string(), false)));

    // A target ends at the next operator.
    let f = parse_line(">a 2>>b");
    assert_eq!(redirect(&f[0]), Some((1, "a".to_string(), true)));
    assert_eq!(redirect(&f[1]), Some((2, "b".to_string(), false)));
}

#[test]
fn unquoted_separators_end_words() {
    assert_eq!(words("a;b|c&d(e)f<g"), ["a", "b", "c", "d", "e", "f", "g"]);
    assert_eq!(words("a\nb\tc"), ["a", "b", "c"]);
    assert_eq!(words("x ; y"), ["x", "y"]);
    assert_eq!(words(r#"'a;b' "c|d" e\&f"#), ["a;b", "c|d", "e&f"]);
}

#[test]
fn each_operator_form_redirects_its_descriptor() {
    for (line, fd, truncate) in [
        ("cmd > f", 1, true),
        ("cmd 1> f", 1, true),
        ("cmd >> f", 1, false),
        ("cmd 1>> f", 1, false),
        ("cmd 2> f", 2, true),
        ("cmd 2>> f", 2, false),
    ] {
        let f = parse_line(line);
        assert_eq!(f.len(), 2);
        assert!(matches!(&f[0], Fragment::Word(w) if w == "cmd"));
        assert_eq!(redirect(&f[1]), Some((fd, "f".to_string(), truncate)));
    }
}

#[test]
fn words_between_blank_and_tab_runs_come_back_unchanged() {
    assert_eq!(words(" \t a \t\t b\tc  \t"), ["a", "b", "c"]);
    let f = parse_line("x 2> y");
    assert!(f.iter().all(|f| redirect(f).map_or(true, |(fd, _, _)| fd == 1 || fd == 2)));
}
