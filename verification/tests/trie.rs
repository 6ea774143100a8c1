use minishell::trie::Trie;

fn sample() -> Trie {
    let mut t = Trie::new();
    for w in ["exit", "echo", "type", "pwd", "cd", "cat", "cargo", "car"] {
        t.insert(w.to_string());
    }
    t
}

#[test]
fn new_trie_is_empty() {
    let t = Trie::new();
    assert!(t.is_leaf());
    assert_eq!(t.value(), None);
    assert!(t.collect_values().is_empty());
}

#[test]
fn insert_then_collect_in_byte_order() {
    let t = sample();
    assert_eq!(
        t.collect_values(),
        ["car", "cargo", "cat", "cd", "echo", "exit", "pwd", "type"]
    );
}

#[test]
fn insert_twice_stores_once() {
    let mut t = Trie::new();
    t.insert("ls".to_string());
    t.insert("ls".to_string());
    assert_eq!(t.collect_values(), ["ls"]);
}

#[test]
fn empty_word_stores_nothing() {
    let mut t = Trie::new();
    t.insert(String::new());
    assert!(t.is_leaf());
    assert!(t.collect_values().is_empty());
}

#[test]
fn complete_unique_word() {
    let t = sample();
    let n = t.complete_minimal("ty").unwrap();
    assert_eq!(n.value(), Some("type"));
    assert!(n.is_leaf());
}

#[test]
fn complete_stops_at_branch() {
    let t = sample();
    let n = t.complete_minimal("c").unwrap();
    assert_eq!(n.value(), None);
    assert_eq!(n.collect_values(), ["car", "cargo", "cat", "cd"]);
    let n = t.complete_minimal("ca").unwrap();
    assert_eq!(n.value(), None);
    assert_eq!(n.collect_values(), ["car", "cargo", "cat"]);
}

#[test]
fn complete_stops_at_stored_word() {
    let t = sample();
    let n = t.complete_minimal("car").unwrap();
    assert_eq!(n.value(), Some("car"));
    assert!(!n.is_leaf());
    assert_eq!(n.collect_values(), ["car", "cargo"]);
    let n = t.complete_minimal("carg").unwrap();
    assert_eq!(n.value(), Some("cargo"));
}

#[test]
fn complete_unknown_prefix() {
    let t = sample();
    assert!(t.complete_minimal("z").is_none());
    assert!(t.complete_minimal("cargoes").is_none());
}

#[test]
fn complete_empty_prefix_on_empty_trie() {
    let t = Trie::new();
    let n = t.complete_minimal("").unwrap();
    assert_eq!(n.value(), None);
    assert!(n.is_leaf());
}

#[test]
fn keys_past_the_first_bitmap_word() {
    let mut t = Trie::new();
    for w in ["é", "\u{7f}", "ÿ", "a", "€"] {
        t.insert(w.to_string());
    }
    assert_eq!(t.collect_values(), ["a", "\u{7f}", "é", "ÿ", "€"]);
    assert_eq!(t.complete_minimal("é").unwrap().value(), Some("é"));
    assert_eq!(t.complete_minimal("€").unwrap().value(), Some("€"));
}

#[test]
fn insertion_order_does_not_matter() {
    let mut a = Trie::new();
    let mut b = Trie::new();
    for w in ["cargo", "é", "car", "cat"] {
        a.insert(w.to_string());
    }
    for w in ["cat", "car", "é", "cargo", "car", ""] {
        b.insert(w.to_string());
    }
    assert_eq!(a.collect_values(), b.collect_values());
    for q in ["", "c", "ca", "car", "carg", "x", "\u{c3}"] {
        let (x, y) = (a.complete_minimal(q), b.complete_minimal(q));
        assert_eq!(x.is_some(), y.is_some());
        if let (Some(x), Some(y)) = (x, y) {
            assert_eq!(x.value(), y.value());
            assert_eq!(x.collect_values(), y.collect_values());
            assert_eq!(x.is_leaf(), y.is_leaf());
            assert_eq!(x.is_leaf(), x.collect_values().len() <= 1);
        }
    }
}

#[test]
fn completing_a_stored_word_finds_its_node() {
    let t = sample();
    let n = t.complete_minimal("car").unwrap();
    assert_eq!(n.value(), Some("car"));
    assert!(!n.is_leaf());
    let n = t.complete_minimal("cargo").unwrap();
    assert_eq!(n.value(), Some("cargo"));
    assert!(n.is_leaf());
}
