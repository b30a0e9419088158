//! The grammar engine: abackus compiles the grammar with the input's tags as
//! terminal categories and derives the parse trees of a sentence.
use vstd::prelude::*;
use crate::classify::{classify, TagEntry};
use crate::classify::tokens_of;
use crate::render::{first_word, leaves, render_all, render_trees, ParseTree};
use crate::text::units;
use crate::text::strs_of;
use crate::GRAMMAR;

verus! {

#[verifier::external_type_specification]
#[verifier::external_body]
pub struct ExParserBuilder(abackus::ParserBuilder);

#[verifier::external_type_specification]
#[verifier::external_body]
pub struct ExEngineTree(abackus::Tree);

/// Relies on `ParserBuilder::default`: a builder with no terminal plugged in.
#[verifier::external_body]
fn new_builder() -> abackus::ParserBuilder {
    abackus::ParserBuilder::default()
}

/// Relies on `ParserBuilder::plug_terminal`: registers the terminal category
/// named by `entry.tag`, which recognises a token when `entry.contains`
/// accepts it.
#[verifier::external_body]
fn plug(builder: abackus::ParserBuilder, entry: TagEntry) -> abackus::ParserBuilder {
    let tag = entry.tag.clone();
    builder.plug_terminal(tag, move |token: &str| entry.contains(token))
}

/// Relies on the variants of `abackus::Tree`: takes over an engine tree,
/// a leaf as a leaf and a node as a node, labels, values and children as
/// they are.
#[verifier::external_body]
fn from_engine(t: abackus::Tree) -> ParseTree {
    match t {
        abackus::Tree::Leaf(label, value) => ParseTree::Leaf(label, value),
        abackus::Tree::Node(label, children) => {
            ParseTree::Node(label, children.into_iter().map(from_engine).collect())
        },
    }
}

/// Relies on `ParserBuilder::treeficator`: compiles `grammar` for the start
/// symbol `start` (it panics on a grammar it cannot read or a start symbol
/// that names none of its symbols), and the parser it returns gives the
/// trees that derive `start` over all of `tokens`, or an error where no rule
/// completes. Each tree stands for a complete item that spans the whole
/// input and has `start` as head: its root is the node of a rule labelled
/// `start -> ...`, and its leaves hold the scanned tokens in order.
#[verifier::external_body]
fn derive_trees(
    builder: abackus::ParserBuilder,
    grammar: &str,
    start: &str,
    tokens: &Vec<String>,
) -> (r: Result<Vec<ParseTree>, String>)
    requires
        grammar == GRAMMAR,
        is_nonterminal(start@),
    ensures
        r matches Ok(ts) ==> forall|i: int|
            0 <= i < ts@.len() ==> derives(#[trigger] ts@[i], start@, strs_of(tokens@)),
{
    let parse = builder.treeficator::<std::slice::Iter<String>>(grammar, start);
    parse(tokens.iter()).map(|trees| trees.into_iter().map(from_engine).collect())
}

/// The first word of the label of `t`'s root, where `t` is a node.
pub open spec fn root_word(t: ParseTree) -> Option<Seq<char>> {
    match t {
        ParseTree::Node(label, _) => first_word(label@),
        ParseTree::Leaf(_, _) => None,
    }
}

/// `t` is a derivation of `start` over `tokens`: its root is a node of a
/// rule for `start`, and its leaves are the tokens in order.
pub open spec fn derives(t: ParseTree, start: Seq<char>, tokens: Seq<Seq<char>>) -> bool {
    &&& root_word(t) == Some(start)
    &&& leaves(t) == tokens
}

/// The nonterminals that `GRAMMAR` defines.
pub open spec fn is_nonterminal(s: Seq<char>) -> bool {
    ||| s == seq!['S']
    ||| s == seq!['N', 'P']
    ||| s == seq!['P', 'P']
    ||| s == seq!['V', 'P']
    ||| s == seq!['C', 'P']
    ||| s == seq!['A', 'd', 'v', 'P']
    ||| s == seq!['A', 'd', 'j', 'P']
}

/// Whether `start` is one of the nonterminals that `GRAMMAR` defines.
pub fn is_grammar_nonterminal(start: &str) -> (r: bool)
    ensures
        r == is_nonterminal(start@),
{
    let cs = crate::text::chars_of(start);
    let n = cs.len();
    let r = (n == 1 && cs[0] == 'S') || (n == 2 && cs[1] == 'P' && (cs[0] == 'N' || cs[0] == 'P'
        || cs[0] == 'V' || cs[0] == 'C')) || (n == 4 && cs[0] == 'A' && cs[1] == 'd' && (cs[2]
        == 'v' || cs[2] == 'j') && cs[3] == 'P');
    assert(r == is_nonterminal(cs@)) by {
        if n == 1 {
            assert(cs@ =~= seq![cs@[0]]);
        } else if n == 2 {
            assert(cs@ =~= seq![cs@[0], cs@[1]]);
        } else if n == 4 {
            assert(cs@ =~= seq![cs@[0], cs@[1], cs@[2], cs@[3]]);
        }
    }
    r
}

/// Why a sentence could not be bracketed.
#[derive(Debug, PartialEq, Eq, Structural)]
pub enum BracketError {
    /// The start symbol is none of the grammar's nonterminals.
    UnknownStartSymbol,
}

/// Classifies `input`, plugs each of its tags into the engine as a terminal
/// category, and has the engine derive the parse trees of its tokens from
/// `start` under `GRAMMAR`. A sentence that the engine cannot derive has no
/// trees.
pub fn parse_sentence(start: &str, input: &str) -> (r: Result<Vec<ParseTree>, BracketError>)
    ensures
        r is Err <==> !is_nonterminal(start@),
        r matches Err(e) ==> e == BracketError::UnknownStartSymbol,
        r matches Ok(ts) ==> forall|i: int|
            0 <= i < ts@.len() ==> derives(#[trigger] ts@[i], start@, tokens_of(units(input@))),
{
    if !is_grammar_nonterminal(start) {
        return Err(BracketError::UnknownStartSymbol);
    }
    let classified = classify(input);
    let mut entries = classified.tags.entries;
    let mut builder = new_builder();
    while entries.len() > 0
        decreases entries@.len(),
    {
        match entries.pop() {
            Some(entry) => {
                builder = plug(builder, entry);
            },
            None => {},
        }
    }
    match derive_trees(builder, GRAMMAR, start, &classified.tokens) {
        Ok(trees) => Ok(trees),
        Err(_) => Ok(Vec::new()),
    }
}

/// The S-expressions of the parses of `input` from `start`, one for each
/// tree that renders to something, in the engine's order.
pub fn bracket_sentence(start: &str, input: &str) -> (r: Result<Vec<String>, BracketError>)
    ensures
        r is Err <==> !is_nonterminal(start@),
        r matches Err(e) ==> e == BracketError::UnknownStartSymbol,
        r matches Ok(lines) ==> exists|trees: Seq<ParseTree>|
            {
                &&& forall|i: int|
                    0 <= i < trees.len() ==> derives(
                        #[trigger] trees[i],
                        start@,
                        tokens_of(units(input@)),
                    )
                &&& strs_of(lines@) == render_all(trees)
            },
{
    match parse_sentence(start, input) {
        Ok(trees) => {
            let lines = render_trees(&trees);
            assert(strs_of(lines@) == render_all(trees@));
            Ok(lines)
        },
        Err(e) => Err(e),
    }
}

} // verus!
