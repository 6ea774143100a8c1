use minishell::buffer::Buffer;
use minishell::input::InputData;
use minishell::prompt::{handle_input, Reaction};
use minishell::terminal::{Completions, Terminal};
use minishell::trie::Trie;

fn buffer_with(s: &str) -> Buffer {
    let mut b = Buffer::new();
    b.insert_str(s);
    b
}

#[test]
fn typing_and_moving() {
    let mut b = Buffer::new();
    assert!(b.insert('a'));
    assert!(b.insert('c'));
    assert!(b.cursor_decr());
    assert!(b.insert('b'));
    assert_eq!(b.to_string(), "abc");
    assert!(!b.is_cursor_at_end());
    assert!(b.cursor_to_end());
    assert!(!b.cursor_to_end());
    assert!(!b.cursor_incr());
    assert!(b.cursor_to_start());
    assert!(!b.cursor_decr());
    assert!(b.delete());
    assert_eq!(b.to_string(), "bc");
    assert_eq!(b.len(), 2);
    b.clear();
    assert_eq!(b.to_string(), "");
    assert!(b.is_cursor_at_start());
}

#[test]
fn overwrite_mode_replaces() {
    let mut b = buffer_with("abc");
    b.cursor_to_start();
    b.toggle_insert_mode();
    assert!(!b.insert('x'));
    assert_eq!(b.to_string(), "xbc");
    b.cursor_to_end();
    assert!(b.insert('d'));
    assert_eq!(b.to_string(), "xbcd");
}

#[test]
fn prefix_word_of_cursor() {
    assert_eq!(buffer_with("echo hel").get_cursor_prefix_word(), "hel");
    assert_eq!(buffer_with("echo ").get_cursor_prefix_word(), "");
    assert_eq!(buffer_with("ls|gr").get_cursor_prefix_word(), "gr");
    assert_eq!(buffer_with("cat 'a b").get_cursor_prefix_word(), "'a b");
    assert_eq!(buffer_with("cat 'a b' c").get_cursor_prefix_word(), "c");
    assert_eq!(buffer_with("cat \"x y\"z").get_cursor_prefix_word(), "\"x y\"z");
    assert_eq!(buffer_with("cat a\\ b").get_cursor_prefix_word(), "a\\ b");
}

#[test]
fn cursor_in_first_word() {
    assert!(buffer_with("ec").is_cursor_in_first_word());
    assert!(buffer_with("  ec").is_cursor_in_first_word());
    assert!(buffer_with("").is_cursor_in_first_word());
    assert!(!buffer_with("echo ").is_cursor_in_first_word());
    assert!(!buffer_with("echo h").is_cursor_in_first_word());
    assert!(buffer_with("'a b").is_cursor_in_first_word());
    assert!(buffer_with("a\\ b").is_cursor_in_first_word());
    assert!(!buffer_with("a;").is_cursor_in_first_word());
}

fn completions() -> Completions {
    let mut commands = Trie::new();
    for w in ["echo", "exit", "type"] {
        commands.insert(w.to_string());
    }
    let mut files = Trie::new();
    for w in ["notes.txt", "notes.md"] {
        files.insert(w.to_string());
    }
    Completions { commands, files }
}

fn feed(t: &mut Terminal, c: &Completions, s: &str) {
    for ch in s.chars() {
        assert!(matches!(handle_input(t, InputData::Char(ch), c), Reaction::Continue));
    }
}

#[test]
fn typed_characters_are_echoed() {
    let c = completions();
    let mut t = Terminal::new();
    t.begin_prompt();
    feed(&mut t, &c, "hi");
    assert_eq!(t.take_output(), "$ hi");
    match handle_input(&mut t, InputData::Char('\n'), &c) {
        Reaction::Submit(line) => assert_eq!(line, "hi"),
        _ => panic!("enter must submit"),
    }
    assert_eq!(t.take_output(), "\n");
}

#[test]
fn insert_in_the_middle_redraws() {
    let c = completions();
    let mut t = Terminal::new();
    feed(&mut t, &c, "ac");
    handle_input(&mut t, InputData::CsiSeq("D".to_string()), &c);
    t.take_output();
    feed(&mut t, &c, "b");
    assert_eq!(t.take_output(), "b\x1b7\x1b[Kc\x1b8");
}

#[test]
fn arrows_and_bell() {
    let c = completions();
    let mut t = Terminal::new();
    handle_input(&mut t, InputData::CsiSeq("D".to_string()), &c);
    assert_eq!(t.take_output(), "\x07");
    feed(&mut t, &c, "ab");
    t.take_output();
    handle_input(&mut t, InputData::CsiSeq("H".to_string()), &c);
    assert_eq!(t.take_output(), "\x1b[3G");
    handle_input(&mut t, InputData::CsiSeq("C".to_string()), &c);
    assert_eq!(t.take_output(), "\x1b[C");
    handle_input(&mut t, InputData::CsiSeq("F".to_string()), &c);
    assert_eq!(t.take_output(), "\x1b[5G");
    handle_input(&mut t, InputData::CsiSeq("A".to_string()), &c);
    assert_eq!(t.take_output(), "\x07");
    handle_input(&mut t, InputData::CsiSeq("Z".to_string()), &c);
    assert_eq!(t.take_output(), "");
}

#[test]
fn backspace_and_delete() {
    let c = completions();
    let mut t = Terminal::new();
    feed(&mut t, &c, "abc");
    t.take_output();
    handle_input(&mut t, InputData::Char('\x7f'), &c);
    assert_eq!(t.take_output(), "\x08\x1b7\x1b[K\x1b8");
    handle_input(&mut t, InputData::CsiSeq("3~".to_string()), &c);
    assert_eq!(t.take_output(), "\x07");
    handle_input(&mut t, InputData::CsiSeq("H".to_string()), &c);
    handle_input(&mut t, InputData::CsiSeq("3~".to_string()), &c);
    t.take_output();
    match handle_input(&mut t, InputData::Char('\n'), &c) {
        Reaction::Submit(line) => assert_eq!(line, "b"),
        _ => panic!("enter must submit"),
    }
}

#[test]
fn tab_completes_a_unique_command() {
    let c = completions();
    let mut t = Terminal::new();
    feed(&mut t, &c, "ty");
    t.take_output();
    assert!(matches!(handle_input(&mut t, InputData::Char('\t'), &c), Reaction::Continue));
    assert_eq!(t.take_output(), "pe ");
    match handle_input(&mut t, InputData::Char('\n'), &c) {
        Reaction::Submit(line) => assert_eq!(line, "type "),
        _ => panic!("enter must submit"),
    }
}

#[test]
fn tab_on_ambiguous_prefix_offers_a_listing() {
    let c = completions();
    let mut t = Terminal::new();
    feed(&mut t, &c, "e");
    t.take_output();
    match handle_input(&mut t, InputData::Char('\t'), &c) {
        Reaction::List(node) => {
            assert_eq!(t.take_output(), "\x07");
            let comp = node.collect_values();
            assert_eq!(comp, ["echo", "exit"]);
            t.list_completions(&comp);
            assert_eq!(t.take_output(), "\x1b7\necho  exit  \n\x1b[K$ e\x1b8");
        }
        _ => panic!("an ambiguous prefix must offer a listing"),
    }
}

#[test]
fn tab_completes_file_names_after_the_command() {
    let c = completions();
    let mut t = Terminal::new();
    feed(&mut t, &c, "cat no");
    t.take_output();
    match handle_input(&mut t, InputData::Char('\t'), &c) {
        Reaction::List(node) => {
            assert_eq!(t.take_output(), "\x07");
            assert_eq!(node.collect_values(), ["notes.md", "notes.txt"]);
        }
        _ => panic!("two files share the prefix"),
    }
}

#[test]
fn tab_with_no_candidate_rings() {
    let c = completions();
    let mut t = Terminal::new();
    feed(&mut t, &c, "zz");
    t.take_output();
    assert!(matches!(handle_input(&mut t, InputData::Char('\t'), &c), Reaction::Continue));
    assert_eq!(t.take_output(), "\x07");
}

#[test]
fn long_listing_wraps_before_column_80() {
    let mut t = Terminal::new();
    let long = "x".repeat(30);
    let comp = vec![long.as_str(), long.as_str(), long.as_str()];
    t.list_completions(&comp);
    let expected = format!(
        "\x1b7\n{0}  {0}  \n{0}  \n\x1b[K$ \x1b8",
        long
    );
    assert_eq!(t.take_output(), expected);
}

#[test]
fn backspace_after_typing_restores_the_line() {
    let c = completions();
    let mut t = Terminal::new();
    feed(&mut t, &c, "abc");
    handle_input(&mut t, InputData::CsiSeq("D".to_string()), &c);
    feed(&mut t, &c, "x");
    handle_input(&mut t, InputData::Char('\x08'), &c);
    t.take_output();
    handle_input(&mut t, InputData::CsiSeq("F".to_string()), &c);
    assert_eq!(t.take_output(), "\x1b[6G");
    match handle_input(&mut t, InputData::Char('\n'), &c) {
        Reaction::Submit(line) => assert_eq!(line, "abc"),
        _ => panic!("enter must submit"),
    }
}

#[test]
fn left_after_right_returns() {
    let mut b = buffer_with("ab");
    b.cursor_to_start();
    assert!(b.cursor_incr());
    assert!(b.cursor_decr());
    assert!(b.is_cursor_at_start());
}

#[test]
fn insert_key_toggles_overwrite() {
    let c = completions();
    let mut t = Terminal::new();
    feed(&mut t, &c, "ab");
    handle_input(&mut t, InputData::CsiSeq("H".to_string()), &c);
    handle_input(&mut t, InputData::CsiSeq("2~".to_string()), &c);
    t.take_output();
    feed(&mut t, &c, "x");
    assert_eq!(t.take_output(), "x");
    match handle_input(&mut t, InputData::Char('\n'), &c) {
        Reaction::Submit(line) => assert_eq!(line, "xb"),
        _ => panic!("enter must submit"),
    }
}

#[test]
fn control_characters() {
    let c = completions();
    let mut t = Terminal::new();
    feed(&mut t, &c, "ab");
    t.take_output();
    handle_input(&mut t, InputData::Char('\r'), &c);
    assert_eq!(t.take_output(), "\x1b[3G");
    handle_input(&mut t, InputData::Char('\x04'), &c);
    assert_eq!(t.take_output(), "\x04");
    handle_input(&mut t, InputData::Char('\x01'), &c);
    handle_input(&mut t, InputData::Char('\x0b'), &c);
    assert_eq!(t.take_output(), "");
}

#[test]
fn the_prefix_word_follows_the_last_separator() {
    assert_eq!(buffer_with(" \t\nls").get_cursor_prefix_word(), "ls");
    assert_eq!(buffer_with("a;;  b").get_cursor_prefix_word(), "b");
    assert_eq!(buffer_with("a;;").get_cursor_prefix_word(), "");
    assert!(buffer_with("  \"x y\"z").is_cursor_in_first_word());
    assert_eq!(buffer_with("  \"x y\"z").get_cursor_prefix_word(), "\"x y\"z");
}
