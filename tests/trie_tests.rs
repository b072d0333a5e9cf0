use trie_rs::format::{Format, TrieError};
use trie_rs::tree::TrieTree;
use trie_rs::trie::{Trie, TrieNode};

struct Plain {
    terminal: bool,
    kids: Vec<(char, Plain)>,
}

fn export(node: &TrieNode) -> Plain {
    let mut kids = Vec::new();
    for c in node.labels() {
        let child = node.get_child(c).expect("listed edge");
        kids.push((c, export(child)));
    }
    Plain { terminal: node.is_terminal(), kids }
}

fn import(plain: &Plain) -> TrieNode {
    let mut node = TrieNode::new(plain.terminal);
    for (c, kid) in &plain.kids {
        node.set_child(*c, import(kid));
    }
    node
}

fn round_trip(t: &Trie) -> Trie {
    Trie::from_root(import(&export(t.root()))).expect("well formed")
}

fn scenario() -> Trie {
    let mut t = Trie::new();
    for w in ["cat", "car", "cart", "dog"] {
        t.insert(w);
    }
    t
}

fn leaves_are_terminal(node: &TrieNode, is_root: bool) -> bool {
    let labels = node.labels();
    if labels.is_empty() && !is_root && !node.is_terminal() {
        return false;
    }
    labels.iter().all(|c| leaves_are_terminal(node.get_child(*c).unwrap(), false))
}

#[test]
fn it_works() {
    let result = 2 + 2;
    assert_eq!(result, 4);
}

#[test]
fn scenario_insert_remove_remove_prefix() {
    let mut t = scenario();
    assert_eq!(t.len(), 4);
    assert!(t.search("car"));
    assert!(!t.search("ca"));
    assert!(t.search_prefix("ca"));
    assert_eq!(t.prefix_count("ca"), 3);
    assert_eq!(t.find_all_prefix("car"), vec!["car".to_string(), "cart".to_string()]);

    assert_eq!(t.remove("cat"), 1);
    assert_eq!(t.len(), 3);
    assert!(!t.search("cat"));
    assert!(t.search_prefix("ca"));

    assert_eq!(t.remove_prefix("car"), 2);
    assert_eq!(t.len(), 1);
    assert!(!t.search("cart"));
    assert!(!t.search_prefix("ca"));
    assert_eq!(t.find_all(), vec!["dog".to_string()]);
}

#[test]
fn saved_tree_after_scenario_restores() {
    let mut t = scenario();
    t.remove("cat");
    t.remove_prefix("car");
    let back = round_trip(&t);
    assert_eq!(back.find_all(), vec!["dog".to_string()]);
    assert_eq!(back.len(), 1);
}

#[test]
fn round_trip_keeps_keys_and_count() {
    let mut t = Trie::new();
    for w in ["", "a", "ab", "abc", "b", "héllo", "日本", "日本語", "zz"] {
        t.insert(w);
    }
    let back = round_trip(&t);
    assert_eq!(back.find_all(), t.find_all());
    assert_eq!(back.len(), t.len());
    assert_eq!(back.len(), 9);
}

#[test]
fn search_follows_inserts_and_removals() {
    let mut t = Trie::new();
    t.insert("apple");
    t.insert("app");
    t.insert("banana");
    assert!(t.search("apple"));
    assert!(t.search("app"));
    assert!(!t.search("ap"));
    assert!(!t.search("apples"));
    t.remove("app");
    assert!(!t.search("app"));
    assert!(t.search("apple"));
    t.insert("app");
    assert!(t.search("app"));
}

#[test]
fn len_matches_listing_after_each_step() {
    let mut t = Trie::new();
    let steps: [(bool, &str); 10] = [
        (true, "to"),
        (true, "tea"),
        (true, "ted"),
        (true, "ten"),
        (false, "te"),
        (true, "inn"),
        (false, "tea"),
        (true, "in"),
        (false, "inn"),
        (false, "to"),
    ];
    for (add, w) in steps {
        if add {
            t.insert(w);
        } else {
            t.remove(w);
        }
        assert_eq!(t.len(), t.find_all().len());
        assert!(leaves_are_terminal(t.root(), true));
    }
    assert_eq!(t.find_all(), vec!["in".to_string(), "ted".to_string(), "ten".to_string()]);
}

#[test]
fn insert_twice_changes_nothing() {
    let mut t = Trie::new();
    t.insert("abc");
    t.insert("abd");
    let before = t.find_all();
    t.insert("abc");
    assert_eq!(t.len(), 2);
    assert_eq!(t.find_all(), before);
}

#[test]
fn remove_absent_key_is_no_op() {
    let mut t = Trie::new();
    t.insert("abc");
    assert_eq!(t.remove("ab"), 0);
    assert_eq!(t.remove("abcd"), 0);
    assert_eq!(t.remove("x"), 0);
    assert_eq!(t.len(), 1);
    assert_eq!(t.find_all(), vec!["abc".to_string()]);
    assert!(t.search_prefix("ab"));
}

#[test]
fn removal_prunes_only_dead_nodes() {
    let mut t = Trie::new();
    t.insert("a");
    t.insert("abcd");
    t.remove("abcd");
    assert!(t.search("a"));
    assert!(!t.search_prefix("ab"));
    assert!(leaves_are_terminal(t.root(), true));
    t.insert("xy");
    t.insert("xz");
    t.remove("xy");
    assert!(t.search_prefix("x"));
    assert!(!t.search_prefix("xy"));
    assert!(t.search("xz"));
}

#[test]
fn prefix_count_equals_listing_length() {
    let t = scenario();
    for p in ["", "c", "ca", "car", "cart", "carts", "d", "x"] {
        assert_eq!(t.prefix_count(p), t.find_all_prefix(p).len());
    }
    assert_eq!(t.prefix_count(""), 4);
    assert_eq!(t.prefix_count("x"), 0);
}

#[test]
fn remove_prefix_counts_the_key_itself() {
    let mut t = scenario();
    assert_eq!(t.remove_prefix("car"), 2);
    assert_eq!(t.find_all(), vec!["cat".to_string(), "dog".to_string()]);
    assert_eq!(t.remove_prefix("zzz"), 0);
    assert_eq!(t.len(), 2);
    assert_eq!(t.remove_prefix(""), 2);
    assert_eq!(t.len(), 0);
    assert!(t.find_all().is_empty());
}

#[test]
fn empty_key_is_stored_at_the_root() {
    let mut t = Trie::new();
    assert!(!t.search(""));
    assert!(t.search_prefix(""));
    t.insert("");
    assert!(t.search(""));
    assert_eq!(t.len(), 1);
    assert_eq!(t.find_all(), vec!["".to_string()]);
    t.insert("a");
    assert_eq!(t.remove(""), 1);
    assert_eq!(t.find_all(), vec!["a".to_string()]);
}

#[test]
fn listing_is_in_dictionary_order() {
    let mut t = Trie::new();
    for w in ["b", "ab", "a", "abc", "é", "Z", "aa"] {
        t.insert(w);
    }
    let all = t.find_all();
    assert_eq!(all, vec!["Z", "a", "aa", "ab", "abc", "b", "é"]);
    assert_eq!(t.find_all_prefix("a"), vec!["a", "aa", "ab", "abc"]);
    assert!(t.find_all_prefix("q").is_empty());
}

#[test]
fn clear_empties_the_trie() {
    let mut t = scenario();
    t.clear();
    assert_eq!(t.len(), 0);
    assert!(!t.search("cat"));
    assert!(t.find_all().is_empty());
    t.insert("new");
    assert_eq!(t.find_all(), vec!["new".to_string()]);
}

#[test]
fn node_level_operations() {
    let mut n = TrieNode::new(false);
    assert_eq!(n.insert("ab"), 1);
    assert_eq!(n.insert("ab"), 0);
    assert!(n.search("ab"));
    assert!(!n.search("a"));
    assert!(n.search_prefix("a"));
    assert!(!n.search_prefix("b"));
    assert_eq!(n.labels(), vec!['a']);
}

#[test]
fn labels_give_back_non_ascii_characters() {
    let mut t = Trie::new();
    t.insert("ü");
    t.insert("😀");
    t.insert("a");
    assert_eq!(t.root().labels(), vec!['a', 'ü', '😀']);
}

#[test]
fn format_names() {
    assert_eq!(Format::parse("json"), Ok(Format::Json));
    assert_eq!(Format::parse("yaml"), Ok(Format::Yaml));
    assert_eq!(Format::parse("binary"), Ok(Format::Binary));
    assert_eq!(Format::parse("xml"), Err(TrieError::UnknownFormat));
    assert_eq!(Format::parse("json\n"), Err(TrieError::UnknownFormat));
    assert_eq!(Format::parse("JSON"), Err(TrieError::UnknownFormat));
    assert_eq!(Format::parse(""), Err(TrieError::UnknownFormat));
}

#[test]
fn dead_node_is_rejected() {
    let mut root = TrieNode::new(false);
    root.set_child('a', TrieNode::new(false));
    assert!(matches!(Trie::from_root(root), Err(TrieError::Malformed)));
    let empty = Trie::from_root(TrieNode::new(false)).expect("empty tree");
    assert_eq!(empty.len(), 0);
}

#[test]
fn stored_count_must_match() {
    let t = scenario();
    let ok = Trie::from_parts(import(&export(t.root())), 4).expect("count matches");
    assert_eq!(ok.len(), 4);
    let bad = Trie::from_parts(import(&export(t.root())), 5);
    assert!(matches!(bad, Err(TrieError::CountMismatch)));
}

#[test]
fn tree_ignores_the_empty_key() {
    let mut t = TrieTree::new();
    assert!(t.starts_with(""));
    t.insert("");
    assert!(t.get_all_words().is_empty());
    assert!(!t.search(""));
    t.insert("ab");
    assert!(t.starts_with(""));
    assert!(t.starts_with("a"));
    assert!(!t.search("a"));
    assert!(t.search("ab"));
}

#[test]
fn tree_lists_and_removes() {
    let mut t = TrieTree::new();
    for w in ["cat", "car", "cart", "dog"] {
        t.insert(w);
    }
    assert_eq!(t.find_all("car"), vec!["car".to_string(), "cart".to_string()]);
    assert_eq!(t.find_all(""), t.get_all_words());
    t.remove("cat");
    assert!(!t.search("cat"));
    t.remove_prefix("car");
    assert_eq!(t.get_all_words(), vec!["dog".to_string()]);
    t.clear();
    assert!(t.get_all_words().is_empty());
}

#[test]
fn tree_restores_from_its_root() {
    let mut t = TrieTree::new();
    t.insert("xy");
    t.insert("x");
    let back = TrieTree::from_root(import(&export(t.root()))).expect("well formed");
    assert_eq!(back.get_all_words(), vec!["x".to_string(), "xy".to_string()]);
    let mut with_empty = TrieNode::new(true);
    with_empty.set_child('a', TrieNode::new(true));
    assert!(matches!(TrieTree::from_root(with_empty), Err(TrieError::Malformed)));
}

#[test]
fn node_remove_prunes() {
    let mut n = TrieNode::new(false);
    n.insert("abc");
    n.insert("x");
    assert_eq!(n.remove("abc"), 1);
    assert_eq!(n.remove("abc"), 0);
    assert_eq!(n.labels(), vec!['x']);
}
