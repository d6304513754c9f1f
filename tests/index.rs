use vimcast::search::{common_prefix_len, RadixNode};

fn sorted(mut v: Vec<String>) -> Vec<String> {
    v.sort();
    v
}

fn strings(words: &[&str]) -> Vec<String> {
    let mut v: Vec<String> = words.iter().map(|w| w.to_string()).collect();
    v.sort();
    v
}

#[test]
fn calendar_scenario() {
    let mut db = RadixNode::new();
    db.insert("calculator");
    db.insert("calendar");
    db.insert("cal");
    assert_eq!(sorted(db.collect("cal")), strings(&["cal", "calculator", "calendar"]));
    assert_eq!(sorted(db.collect("calc")), strings(&["calculator"]));
    assert!(!db.starts_with("calx"));
    assert!(db.starts_with("cale"));
    assert!(db.search("cal"));
    assert!(!db.search("calc"));
}

#[test]
fn collect_everything_gives_lowercase_words() {
    let mut db = RadixNode::new();
    for w in ["Firefox", "FINDER", "terminal", "Safari", "fin"] {
        db.insert(w);
    }
    assert_eq!(
        sorted(db.collect("")),
        strings(&["firefox", "finder", "terminal", "safari", "fin"])
    );
}

#[test]
fn empty_index_holds_nothing() {
    let db = RadixNode::new();
    assert!(db.collect("").is_empty());
    assert!(!db.starts_with(""));
    assert!(!db.search(""));
    assert!(!db.search("a"));
}

#[test]
fn search_finds_inserted_words_in_any_case() {
    let mut db = RadixNode::new();
    db.insert("Notepad");
    db.insert("note");
    assert!(db.search("notepad"));
    assert!(db.search("NOTEPAD"));
    assert!(db.search("note"));
    assert!(!db.search("not"));
    assert!(!db.search("notepads"));
    assert!(!db.search("pad"));
}

#[test]
fn upper_case_input_is_stored_lowercase() {
    let mut db = RadixNode::new();
    db.insert("CALC");
    assert!(db.search_lowercase("calc"));
    assert!(!db.search_lowercase("CALC"));
    assert_eq!(db.collect_lowercase(""), vec!["calc".to_string()]);
}

#[test]
fn collect_lowercases_the_prefix() {
    let mut db = RadixNode::new();
    db.insert("terminal");
    db.insert("textedit");
    assert_eq!(sorted(db.collect("TE")), strings(&["terminal", "textedit"]));
    assert_eq!(sorted(db.collect("Ter")), strings(&["terminal"]));
    assert!(db.collect("x").is_empty());
    assert!(db.collect("terminals").is_empty());
}

#[test]
fn collect_matches_prefix_filter() {
    let words = ["alpha", "alphabet", "alp", "beta", "be", "bet", "gamma", "al"];
    let mut db = RadixNode::new();
    for w in words {
        db.insert(w);
    }
    for p in ["", "a", "al", "alp", "alph", "alphabet", "alphabets", "b", "be", "bet", "g", "z"] {
        let expected: Vec<String> = sorted(
            words.iter().filter(|w| w.starts_with(p)).map(|w| w.to_string()).collect(),
        );
        assert_eq!(sorted(db.collect(p)), expected, "prefix {p:?}");
        assert_eq!(db.starts_with(p), !expected.is_empty(), "prefix {p:?}");
    }
}

#[test]
fn inserting_twice_changes_nothing() {
    let mut once = RadixNode::new();
    once.insert("music");
    let mut thrice = RadixNode::new();
    thrice.insert("music");
    thrice.insert("Music");
    thrice.insert("MUSIC");
    assert_eq!(sorted(once.collect("")), sorted(thrice.collect("")));
    assert_eq!(thrice.collect(""), vec!["music".to_string()]);
}

#[test]
fn empty_word_marks_the_root() {
    let mut db = RadixNode::new();
    db.insert("");
    assert!(db.search(""));
    assert!(db.starts_with(""));
    assert_eq!(db.collect(""), vec![String::new()]);
    db.insert("x");
    assert_eq!(sorted(db.collect("")), strings(&["", "x"]));
    assert_eq!(db.collect("x"), vec!["x".to_string()]);
}

#[test]
fn split_edges_keep_all_words() {
    let mut db = RadixNode::new();
    db.insert("romane");
    db.insert("romanus");
    db.insert("romulus");
    db.insert("rubens");
    db.insert("ruber");
    db.insert("rubicon");
    db.insert("rubicundus");
    db.insert("rom");
    assert_eq!(
        sorted(db.collect("r")),
        strings(&["romane", "romanus", "romulus", "rubens", "ruber", "rubicon", "rubicundus", "rom"])
    );
    assert_eq!(sorted(db.collect("rub")), strings(&["rubens", "ruber", "rubicon", "rubicundus"]));
    assert_eq!(sorted(db.collect("roma")), strings(&["romane", "romanus"]));
    assert!(db.search("rom"));
    assert!(!db.search("roma"));
    assert!(db.starts_with("rubic"));
    assert!(!db.starts_with("rubx"));
}

#[test]
fn multibyte_characters_split_on_character_boundaries() {
    let mut db = RadixNode::new();
    db.insert("éclair");
    db.insert("école");
    db.insert("ÉTÉ");
    assert_eq!(sorted(db.collect("é")), strings(&["éclair", "école", "été"]));
    assert_eq!(sorted(db.collect("éc")), strings(&["éclair", "école"]));
    assert!(db.search("Été"));
    assert!(db.starts_with("ét"));
}

#[test]
fn common_prefix_counts_characters() {
    assert_eq!(common_prefix_len("calendar", "calculator"), 3);
    assert_eq!(common_prefix_len("", "abc"), 0);
    assert_eq!(common_prefix_len("abc", "abc"), 3);
    assert_eq!(common_prefix_len("abc", "abcd"), 3);
    assert_eq!(common_prefix_len("xbc", "abc"), 0);
    assert_eq!(common_prefix_len("éa", "éb"), 1);
}
