use bracket::engine::{bracket_sentence, is_grammar_nonterminal, parse_sentence, BracketError};

fn lines(start: &str, input: &str) -> Vec<String> {
    bracket_sentence(start, input).unwrap()
}

#[test]
fn sentence_without_aux_has_no_parse() {
    assert!(lines("S", "the.Det dog.N barked.V").is_empty());
}

#[test]
fn noun_phrase_with_adjective() {
    assert_eq!(
        lines("NP", "the.Det big.Adj dog.N"),
        vec!["[NP [Det the] [AdjP [Adj big]] [N dog]]"]
    );
}

#[test]
fn sentence_with_aux_parses() {
    assert_eq!(
        lines("S", "the.Det dog.N has.Aux barked.V"),
        vec!["[S [NP [Det the] [N dog]] [Aux has] [VP [V barked]]]"]
    );
}

#[test]
fn multi_word_token_is_shown_with_spaces() {
    assert_eq!(lines("NP", "New_York.n"), vec!["[NP [N New York]]"]);
}

#[test]
fn helper_layer_shows_only_its_first_child() {
    assert_eq!(
        lines("NP", "the.Det big.Adj red.Adj dog.N"),
        vec!["[NP [Det the] [AdjP [Adj big]] [N dog]]"]
    );
}

#[test]
fn untagged_sentence_has_no_parse() {
    assert!(lines("NP", "the dog").is_empty());
    assert!(lines("S", "").is_empty());
}

#[test]
fn unknown_start_symbol_is_an_error() {
    assert_eq!(bracket_sentence("X", "dog.N"), Err(BracketError::UnknownStartSymbol));
    assert_eq!(bracket_sentence("Det", "the.Det"), Err(BracketError::UnknownStartSymbol));
    assert_eq!(bracket_sentence("", "dog.N"), Err(BracketError::UnknownStartSymbol));
    assert!(parse_sentence("np", "dog.N").is_err());
}

#[test]
fn grammar_nonterminals() {
    for s in ["S", "NP", "PP", "VP", "CP", "AdvP", "AdjP"] {
        assert!(is_grammar_nonterminal(s));
    }
    for s in ["", "N", "Adj", "SP", "AdvPP", "s"] {
        assert!(!is_grammar_nonterminal(s));
    }
}

#[test]
fn parse_sentence_gives_engine_trees() {
    let trees = parse_sentence("NP", "dog.N").unwrap();
    assert_eq!(trees.len(), 1);
}

fn leaf_values(t: &bracket::render::ParseTree, out: &mut Vec<String>) {
    match t {
        bracket::render::ParseTree::Leaf(_, v) => out.push(v.clone()),
        bracket::render::ParseTree::Node(_, cs) => {
            for c in cs {
                leaf_values(c, out);
            }
        }
    }
}

#[test]
fn engine_trees_derive_start_over_tokens() {
    let trees = parse_sentence("S", "the.Det dog.N has.Aux barked.V").unwrap();
    assert!(!trees.is_empty());
    for t in &trees {
        let mut out = Vec::new();
        leaf_values(t, &mut out);
        assert_eq!(out, vec!["the", "dog", "has", "barked"]);
        match t {
            bracket::render::ParseTree::Node(label, _) => {
                assert_eq!(label.split_whitespace().next(), Some("S"));
            }
            bracket::render::ParseTree::Leaf(_, _) => panic!("root is a leaf"),
        }
    }
}
