use bracket::classify::{classify, pascal_case, split_tag, Classified, TagMap};

fn tokens(c: &Classified) -> Vec<String> {
    c.tokens.clone()
}

fn entry_tokens(m: &TagMap, tag: &str) -> Option<Vec<String>> {
    m.entries.iter().find(|e| e.tag == tag).map(|e| {
        let mut v = e.tokens.clone();
        v.sort();
        v
    })
}

#[test]
fn pascal_case_upper_cases_first_letter() {
    assert_eq!(pascal_case("det"), "Det");
    assert_eq!(pascal_case("adj"), "Adj");
    assert_eq!(pascal_case("aUX"), "AUX");
}

#[test]
fn pascal_case_of_empty_is_empty() {
    assert_eq!(pascal_case(""), "");
}

#[test]
fn pascal_case_keeps_pascal_case_input() {
    for x in ["Det", "N", "AdvP", "9x", ".a"] {
        let once = pascal_case(x);
        assert_eq!(once, x);
        assert_eq!(pascal_case(&once), once);
    }
}

#[test]
fn pascal_case_twice_is_once() {
    for x in ["det", "adj", "n", "conj", "x_y"] {
        let once = pascal_case(x);
        assert_eq!(pascal_case(&once), once);
    }
}

#[test]
fn pascal_case_beyond_ascii() {
    assert_eq!(pascal_case("ñame"), "Ñame");
    assert_eq!(pascal_case("ßa"), "SSa");
}

#[test]
fn split_tag_at_first_dot() {
    let (t, g) = split_tag(&['d', 'o', 'g', '.', 'N']);
    assert_eq!(t, "dog");
    assert_eq!(g, Some("N".to_string()));
    let (t, g) = split_tag(&['a', '.', 'b', '.', 'c']);
    assert_eq!(t, "a");
    assert_eq!(g, Some("b.c".to_string()));
    let (t, g) = split_tag(&['w', 'o', 'r', 'd']);
    assert_eq!(t, "word");
    assert_eq!(g, None);
    let (t, g) = split_tag(&['x', '.']);
    assert_eq!(t, "x");
    assert_eq!(g, Some(String::new()));
}

#[test]
fn classify_unique_tags_one_token_each() {
    let c = classify("the.Det dog.N barked.V");
    assert_eq!(tokens(&c), vec!["the", "dog", "barked"]);
    assert_eq!(c.tags.entries.len(), 3);
    assert_eq!(entry_tokens(&c.tags, "Det"), Some(vec!["the".to_string()]));
    assert_eq!(entry_tokens(&c.tags, "N"), Some(vec!["dog".to_string()]));
    assert_eq!(entry_tokens(&c.tags, "V"), Some(vec!["barked".to_string()]));
}

#[test]
fn classify_tags_are_pascal_cased() {
    let c = classify("the.det big.adj dog.n");
    assert_eq!(entry_tokens(&c.tags, "Det"), Some(vec!["the".to_string()]));
    assert_eq!(entry_tokens(&c.tags, "Adj"), Some(vec!["big".to_string()]));
    assert_eq!(entry_tokens(&c.tags, "N"), Some(vec!["dog".to_string()]));
    assert_eq!(entry_tokens(&c.tags, "det"), None);
}

#[test]
fn classify_shared_tag_collects_a_set() {
    let c = classify("the.Det the.det a.Det dog.N");
    assert_eq!(tokens(&c), vec!["the", "the", "a", "dog"]);
    assert_eq!(c.tags.entries.len(), 2);
    assert_eq!(
        entry_tokens(&c.tags, "Det"),
        Some(vec!["a".to_string(), "the".to_string()])
    );
}

#[test]
fn classify_untagged_tokens_only_in_token_list() {
    let c = classify("hello world.n");
    assert_eq!(tokens(&c), vec!["hello", "world"]);
    assert_eq!(c.tags.entries.len(), 1);
    assert_eq!(entry_tokens(&c.tags, "N"), Some(vec!["world".to_string()]));
}

#[test]
fn classify_counts_white_space_units_in_order() {
    let c = classify("  a.X\tb \n c.Y  d ");
    assert_eq!(tokens(&c), vec!["a", "b", "c", "d"]);
    let c = classify("");
    assert!(c.tokens.is_empty());
    assert!(c.tags.entries.is_empty());
    let c = classify("   \t ");
    assert!(c.tokens.is_empty());
}

#[test]
fn classify_empty_tag_is_kept_as_empty_name() {
    let c = classify("x. y.N");
    assert_eq!(tokens(&c), vec!["x", "y"]);
    assert_eq!(entry_tokens(&c.tags, ""), Some(vec!["x".to_string()]));
}

#[test]
fn classify_tag_is_everything_after_first_dot() {
    let c = classify("a.b.c");
    assert_eq!(tokens(&c), vec!["a"]);
    assert_eq!(entry_tokens(&c.tags, "B.c"), Some(vec!["a".to_string()]));
}

#[test]
fn tag_entry_membership() {
    let c = classify("the.Det a.Det dog.N");
    let det = c.tags.entries.iter().find(|e| e.tag == "Det").unwrap();
    assert!(det.contains("the"));
    assert!(det.contains("a"));
    assert!(!det.contains("dog"));
    assert!(!det.contains("th"));
    assert!(!det.contains(""));
}

#[test]
fn tag_map_insert_builds_sets() {
    let mut m = TagMap::new();
    m.insert("N".to_string(), "dog".to_string());
    m.insert("N".to_string(), "cat".to_string());
    m.insert("N".to_string(), "dog".to_string());
    m.insert("V".to_string(), "ran".to_string());
    assert_eq!(m.entries.len(), 2);
    assert_eq!(
        entry_tokens(&m, "N"),
        Some(vec!["cat".to_string(), "dog".to_string()])
    );
    assert_eq!(entry_tokens(&m, "V"), Some(vec!["ran".to_string()]));
}

#[test]
fn classify_splits_on_unicode_white_space() {
    let c = classify("a.N\u{3000}b.N\u{a0}c\u{2028}d");
    assert_eq!(tokens(&c), vec!["a", "b", "c", "d"]);
    let c = classify("a\u{200b}b");
    assert_eq!(tokens(&c), vec!["a\u{200b}b"]);
}

#[test]
fn classify_distinct_ascii_tags_give_singletons() {
    let c = classify("x.adj y.Adv z.adjP w.n");
    assert_eq!(c.tags.entries.len(), 4);
    assert_eq!(entry_tokens(&c.tags, "Adj"), Some(vec!["x".to_string()]));
    assert_eq!(entry_tokens(&c.tags, "Adv"), Some(vec!["y".to_string()]));
    assert_eq!(entry_tokens(&c.tags, "AdjP"), Some(vec!["z".to_string()]));
    assert_eq!(entry_tokens(&c.tags, "N"), Some(vec!["w".to_string()]));
}
