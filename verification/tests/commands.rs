use minishell::commands::{
    builtin, cd_report, cd_target, command_words, expand_home, echo_line, is_executable_mode, last_redirect, not_found_message,
    repl_flags, split_path_list, type_report, type_step, Builtin, ReplFlags, Stream, TypeStep,
};
use minishell::parse::parse_line;

fn strings(v: &[&str]) -> Vec<String> {
    v.iter().map(|s| s.to_string()).collect()
}

#[test]
fn builtins_are_recognised() {
    assert!(matches!(builtin(&"exit".to_string()), Some(Builtin::Exit)));
    assert!(matches!(builtin(&"echo".to_string()), Some(Builtin::Echo)));
    assert!(matches!(builtin(&"type".to_string()), Some(Builtin::Type)));
    assert!(matches!(builtin(&"pwd".to_string()), Some(Builtin::Pwd)));
    assert!(matches!(builtin(&"cd".to_string()), Some(Builtin::Cd)));
    assert!(builtin(&"ls".to_string()).is_none());
    assert!(builtin(&"echoo".to_string()).is_none());
}

#[test]
fn words_and_redirections() {
    let f = parse_line("echo a > x b 1>> y 2> z");
    assert_eq!(command_words(&f), ["echo", "a", "b"]);
    assert_eq!(last_redirect(&f, 1), Some(("y".to_string(), false)));
    assert_eq!(last_redirect(&f, 2), Some(("z".to_string(), true)));
    let f = parse_line("ls");
    assert_eq!(last_redirect(&f, 1), None);
}

#[test]
fn echo_joins_with_blanks() {
    let args = strings(&["echo", "a", "b  c", "d"]);
    assert_eq!(echo_line(&args, 1), "a b  c d");
    assert_eq!(echo_line(&args, 4), "");
}

#[test]
fn type_messages() {
    assert!(matches!(type_step(&vec![]), TypeStep::Nothing));
    match type_step(&strings(&["cd"])) {
        TypeStep::Builtin(l) => assert_eq!(l, "cd is a shell builtin"),
        _ => panic!("cd is a builtin"),
    }
    assert!(matches!(type_step(&strings(&["ls", "x"])), TypeStep::Lookup));
    let (s, l) = type_report(&"ls".to_string(), Some("/bin/ls".to_string()));
    assert!(matches!(s, Stream::Stdout));
    assert_eq!(l, "ls is /bin/ls");
    let (s, l) = type_report(&"nope".to_string(), None);
    assert!(matches!(s, Stream::Stderr));
    assert_eq!(l, "nope: not found");
    assert_eq!(not_found_message(&"nope".to_string()), "nope: command not found");
}

#[test]
fn path_list_splits_on_colons() {
    let v = split_path_list(b"/bin:/usr/bin::/x");
    assert_eq!(v, vec![b"/bin".to_vec(), b"/usr/bin".to_vec(), vec![], b"/x".to_vec()]);
    assert_eq!(split_path_list(b""), vec![Vec::<u8>::new()]);
}

#[test]
fn executable_bits() {
    assert!(is_executable_mode(true, 0o755));
    assert!(is_executable_mode(true, 0o001));
    assert!(!is_executable_mode(true, 0o644));
    assert!(!is_executable_mode(false, 0o755));
}

#[test]
fn repl_mode_flags() {
    let r = repl_flags(
        &ReplFlags { lflag: 0b1111, iflag: 0, oflag: 1, vmin: 0, vtime: 5 },
        0b0011,
        0b10000,
        4,
        2,
    );
    assert_eq!(r.lflag, 0b11100);
    assert_eq!(r.iflag, 4);
    assert_eq!(r.oflag, 3);
    assert_eq!(r.vmin, 1);
    assert_eq!(r.vtime, 0);
}

#[test]
fn cd_reports_a_missing_directory_on_stderr() {
    let (stream, line) = cd_report(&"/nowhere".to_string(), true, &"ignored".to_string());
    assert!(matches!(stream, Stream::Stderr));
    assert_eq!(line, "cd: /nowhere: No such file or directory");
    let (stream, line) = cd_report(&"/etc/passwd".to_string(), false, &"Not a directory".to_string());
    assert!(matches!(stream, Stream::Stdout));
    assert_eq!(line, "cd: /etc/passwd: Not a directory");
}

#[test]
fn cd_goes_to_its_first_argument_with_the_home_directory_for_a_tilde() {
    let home = Some("/home/u".to_string());
    assert_eq!(cd_target(&strings(&[]), home.clone()), None);
    assert_eq!(cd_target(&strings(&["/tmp", "x"]), home.clone()), Some("/tmp".to_string()));
    assert_eq!(cd_target(&strings(&["~/src"]), home.clone()), Some("/home/u/src".to_string()));
    assert_eq!(cd_target(&strings(&["~"]), home.clone()), Some("/home/u/".to_string()));
    assert_eq!(cd_target(&strings(&["~x"]), home.clone()), Some("~x".to_string()));
    assert_eq!(cd_target(&strings(&["~/src"]), None), Some("~/src".to_string()));
}

#[test]
fn the_home_directory_replaces_a_stripped_tilde_only_when_both_are_there() {
    let arg = "~/x".to_string();
    let home = Some("/h".to_string());
    assert_eq!(expand_home(&arg, Some("x".to_string()), home.clone()), "/h/x");
    assert_eq!(expand_home(&arg, None, home), "~/x");
    assert_eq!(expand_home(&arg, Some("x".to_string()), None), "~/x");
}
