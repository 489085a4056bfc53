use prefix_trie::Trie;

#[test]
fn run() {
    let mut trie = Trie::new();

    trie.insert("a");
    trie.insert("to");
    trie.insert("tea");
    trie.insert("apples");
    trie.insert("an");
    trie.insert("test");
    trie.insert("tea");

    assert!(trie.contains("test"));
    assert!(trie.contains("to"));
    assert!(trie.contains("tea"));
    assert!(!trie.contains("airplane"));

    println!("{}", trie.display());

    assert_eq!(trie.search("te"), vec!["tea", "test"]);
    assert_eq!(trie.search("a"), vec!["a", "an", "apples"]);

    trie.insert("test");
    trie.insert("test");

    assert_eq!(trie.search("te"), vec!["test", "tea"]);
}

#[test]
fn inserted_strings_exist() {
    let mut trie = Trie::new();
    trie.insert("hello");
    trie.insert("help");
    trie.insert("");
    assert!(trie.contains("hello"));
    assert!(trie.contains("help"));
    assert!(trie.contains(""));
}

#[test]
fn prefixes_of_entries_do_not_exist() {
    let mut trie = Trie::new();
    trie.insert("hello");
    assert!(!trie.contains("h"));
    assert!(!trie.contains("he"));
    assert!(!trie.contains("hell"));
    assert!(!trie.contains("hellos"));
    assert!(!trie.contains("world"));
    assert!(!trie.contains(""));
}

#[test]
fn reinsertion_keeps_one_entry_and_raises_its_rank() {
    let mut trie = Trie::new();
    trie.insert("b");
    trie.insert("a");
    assert_eq!(trie.search(""), vec!["a", "b"]);
    trie.insert("b");
    assert_eq!(trie.search(""), vec!["b", "a"]);
    trie.insert("b");
    assert_eq!(trie.search(""), vec!["b", "a"]);
}

#[test]
fn ranking_by_count_then_lexicographic() {
    let mut trie = Trie::new();
    for word in ["pear", "peach", "pea", "pear", "plum", "pear", "peach"] {
        trie.insert(word);
    }
    assert_eq!(trie.search("pe"), vec!["pear", "peach", "pea"]);
    assert_eq!(trie.search("p"), vec!["pear", "peach", "pea", "plum"]);
}

#[test]
fn empty_prefix_returns_all_entries_ranked() {
    let mut trie = Trie::new();
    trie.insert("to");
    trie.insert("tea");
    trie.insert("a");
    trie.insert("tea");
    assert_eq!(trie.search(""), vec!["tea", "a", "to"]);
}

#[test]
fn unmatched_prefix_returns_nothing() {
    let mut trie = Trie::new();
    trie.insert("alpha");
    trie.insert("beta");
    assert_eq!(trie.search("gamma"), Vec::<String>::new());
    assert_eq!(trie.search("alphabet"), Vec::<String>::new());
    assert_eq!(Trie::new().search(""), Vec::<String>::new());
}

#[test]
fn empty_string_entry_is_ranked_first_among_ties() {
    let mut trie = Trie::new();
    trie.insert("");
    trie.insert("a");
    assert_eq!(trie.search(""), vec!["", "a"]);
}

#[test]
fn display_renders_levels_breadth_first() {
    let mut trie = Trie::new();
    trie.insert("to");
    trie.insert("tea");
    trie.insert("a");
    assert_eq!(trie.display(), "a t \ne o \na ");
}

#[test]
fn display_of_empty_trie_is_empty() {
    let trie = Trie::new();
    assert_eq!(trie.display(), "");
}
