use bracket::render::{expand_underscores, first_word_of, render_trees, s_expression, ParseTree};

fn leaf(label: &str, value: &str) -> ParseTree {
    ParseTree::Leaf(label.to_string(), value.to_string())
}

fn node(label: &str, children: Vec<ParseTree>) -> ParseTree {
    ParseTree::Node(label.to_string(), children)
}

#[test]
fn leaf_renders_label_and_value() {
    assert_eq!(s_expression(&leaf("Det", "the")), Some("[Det the]".to_string()));
}

#[test]
fn leaf_underscores_become_spaces() {
    assert_eq!(
        s_expression(&leaf("N", "New_York")),
        Some("[N New York]".to_string())
    );
    assert_eq!(s_expression(&leaf("N", "__")), Some("[N   ]".to_string()));
    assert_eq!(expand_underscores("a_b_c"), "a b c");
}

#[test]
fn synthetic_leaf_renders_nothing() {
    assert_eq!(s_expression(&leaf("<Uniq-3>", "x")), None);
}

#[test]
fn empty_synthetic_node_renders_nothing_anywhere() {
    assert_eq!(s_expression(&node("<Uniq-1> -> ", vec![])), None);
    let t = node(
        "NP -> <Uniq-1> N <Uniq-2>",
        vec![node("<Uniq-1> -> ", vec![]), leaf("N", "dog"), node("<Uniq-2> -> ", vec![])],
    );
    assert_eq!(s_expression(&t), Some("[NP [N dog]]".to_string()));
    let wrapped = node("<Uniq-5> -> <Uniq-1>", vec![node("<Uniq-1> -> ", vec![])]);
    assert_eq!(s_expression(&wrapped), None);
}

#[test]
fn synthetic_node_renders_first_child_only() {
    let t = node(
        "<Uniq-2> -> AdjP <Uniq-2>",
        vec![node("AdjP -> Adj", vec![leaf("Adj", "big")]), leaf("Adj", "red")],
    );
    assert_eq!(s_expression(&t), Some("[AdjP [Adj big]]".to_string()));
}

#[test]
fn node_label_is_first_word() {
    let t = node("NP -> Det N", vec![leaf("Det", "the"), leaf("N", "dog")]);
    assert_eq!(s_expression(&t), Some("[NP [Det the] [N dog]]".to_string()));
    assert_eq!(first_word_of("  VP -> V"), Some("VP".to_string()));
    assert_eq!(first_word_of("   "), None);
}

#[test]
fn node_without_surviving_children_keeps_brackets() {
    assert_eq!(s_expression(&node("X", vec![])), Some("[X ]".to_string()));
    let t = node("X -> <Uniq-1>", vec![node("<Uniq-1> -> ", vec![])]);
    assert_eq!(s_expression(&t), Some("[X ]".to_string()));
}

#[test]
fn node_without_word_renders_nothing() {
    assert_eq!(s_expression(&node("", vec![leaf("N", "dog")])), None);
    assert_eq!(s_expression(&node(" \t", vec![leaf("N", "dog")])), None);
    let t = node("S -> NP", vec![node("", vec![]), leaf("N", "dog")]);
    assert_eq!(s_expression(&t), Some("[S [N dog]]".to_string()));
}

#[test]
fn rendering_twice_gives_the_same() {
    let t = node(
        "S -> NP Aux VP",
        vec![
            node("NP -> <Uniq-0> N", vec![node("<Uniq-0> -> Det", vec![leaf("Det", "the")]), leaf("N", "dog")]),
            leaf("Aux", "has"),
            node("VP -> V", vec![leaf("V", "barked")]),
        ],
    );
    let a = s_expression(&t);
    let b = s_expression(&t);
    assert_eq!(a, b);
    assert_eq!(a, Some("[S [NP [Det the] [N dog]] [Aux has] [VP [V barked]]]".to_string()));
}

#[test]
fn stripped_tree_keeps_leaf_order() {
    let t = node(
        "S",
        vec![
            node("NP", vec![leaf("Det", "the"), leaf("N", "New_York")]),
            node("VP", vec![leaf("V", "sleeps")]),
        ],
    );
    assert_eq!(
        s_expression(&t),
        Some("[S [NP [Det the] [N New York]] [VP [V sleeps]]]".to_string())
    );
}

#[test]
fn render_trees_skips_trees_that_render_nothing() {
    let trees = vec![
        leaf("N", "dog"),
        node("<Uniq-1> -> ", vec![]),
        node("VP -> V", vec![leaf("V", "ran")]),
    ];
    assert_eq!(render_trees(&trees), vec!["[N dog]", "[VP [V ran]]"]);
    assert!(render_trees(&vec![]).is_empty());
}

#[test]
fn rendered_string_shows_leaf_values_in_order() {
    let t = node(
        "S -> NP VP",
        vec![
            node("NP -> Det N", vec![leaf("Det", "a"), leaf("N", "big_cat")]),
            node("VP -> V", vec![leaf("V", "sat")]),
        ],
    );
    let s = s_expression(&t).unwrap();
    let mut values = Vec::new();
    for group in s.split('[').filter_map(|g| g.split(']').next().filter(|_| g.contains(']'))) {
        values.push(group.splitn(2, ' ').nth(1).unwrap().to_string());
    }
    assert_eq!(values, vec!["a", "big cat", "sat"]);
}
