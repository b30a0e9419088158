//! Parse trees and their rendering as S-expressions.
use vstd::prelude::*;
use crate::text::{chars_of, push_char, push_str, split_units, string_of, strs_of, units};

verus! {

broadcast use vstd::seq::axiom_seq_index_decreases, vstd::seq::axiom_seq_subrange_decreases,
    vstd::std_specs::vec::axiom_vec_decreases_to_view, vstd::std_specs::vec::axiom_vec_index_decreases;

/// A parse tree as a grammar engine derives it.
#[derive(Debug)]
pub enum ParseTree {
    /// A terminal category and the literal token it recognised.
    Leaf(String, String),
    /// A derivation step: its rule label and its children, in order.
    Node(String, Vec<ParseTree>),
}

/// A label that starts with `<` names a helper symbol of the engine.
pub open spec fn is_synthetic(label: Seq<char>) -> bool {
    label.len() > 0 && label[0] == '<'
}

/// `v` with every underscore replaced by a space.
pub open spec fn expand(v: Seq<char>) -> Seq<char> {
    v.map_values(|c: char| if c == '_' { ' ' } else { c })
}

/// The first white-space-delimited word of `label`, if it has one.
pub open spec fn first_word(label: Seq<char>) -> Option<Seq<char>> {
    if units(label).len() > 0 {
        Some(units(label)[0])
    } else {
        None
    }
}

/// `[label body]`.
pub open spec fn bracket(label: Seq<char>, body: Seq<char>) -> Seq<char> {
    seq!['['] + label + seq![' '] + body + seq![']']
}

/// `parts` joined with single spaces.
pub open spec fn join(parts: Seq<Seq<char>>) -> Seq<char>
    decreases parts.len(),
{
    if parts.len() == 0 {
        Seq::empty()
    } else if parts.len() == 1 {
        parts[0]
    } else {
        join(parts.drop_last()) + seq![' '] + parts.last()
    }
}

/// The rendering of `t`, or `None` where `t` renders to nothing.
pub open spec fn render(t: ParseTree) -> Option<Seq<char>>
    decreases t,
{
    match t {
        ParseTree::Node(label, children) => {
            if is_synthetic(label@) {
                if children@.len() == 0 {
                    None
                } else {
                    render(children@[0])
                }
            } else {
                match first_word(label@) {
                    None => None,
                    Some(w) => Some(bracket(w, join(render_all(children@)))),
                }
            }
        },
        ParseTree::Leaf(label, value) => {
            if is_synthetic(label@) {
                None
            } else {
                Some(bracket(label@, expand(value@)))
            }
        },
    }
}

/// The renderings of the trees of `ts` that render to something, in order.
pub open spec fn render_all(ts: Seq<ParseTree>) -> Seq<Seq<char>>
    decreases ts,
{
    if ts.len() == 0 {
        Seq::empty()
    } else {
        let init = render_all(ts.drop_last());
        match render(ts.last()) {
            Some(s) => init.push(s),
            None => init,
        }
    }
}

/// The characters of an optional string.
pub open spec fn opt_view(o: Option<String>) -> Option<Seq<char>> {
    match o {
        Some(s) => Some(s@),
        None => None,
    }
}

/// The first white-space-delimited word of `label`, if it has one.
pub fn first_word_of(label: &str) -> (r: Option<String>)
    ensures
        opt_view(r) == first_word(label@),
{
    let words = split_units(&chars_of(label));
    if words.len() > 0 {
        Some(string_of(words[0].as_slice()))
    } else {
        None
    }
}

/// `value` with every underscore replaced by a space.
pub fn expand_underscores(value: &str) -> (r: String)
    ensures
        r@ == expand(value@),
{
    let cs = chars_of(value);
    let mut r = String::new();
    let mut i: usize = 0;
    while i < cs.len()
        invariant
            i <= cs@.len(),
            cs@ == value@,
            r@ == expand(cs@.take(i as int)),
        decreases cs@.len() - i,
    {
        let c = cs[i];
        push_char(&mut r, if c == '_' { ' ' } else { c });
        assert(expand(cs@.take(i + 1)) =~= expand(cs@.take(i as int)).push(
            if c == '_' { ' ' } else { c },
        ));
        i += 1;
    }
    assert(cs@.take(cs@.len() as int) == cs@);
    r
}

/// `[label body]` as a string.
fn bracketed(label: &str, body: &str) -> (r: String)
    ensures
        r@ == bracket(label@, body@),
{
    let mut r = String::new();
    push_char(&mut r, '[');
    push_str(&mut r, label);
    push_char(&mut r, ' ');
    push_str(&mut r, body);
    push_char(&mut r, ']');
    assert(r@ =~= bracket(label@, body@));
    r
}

/// Renders `tree` as an S-expression: a helper node stands for its first
/// child, or for nothing without children; any other node shows the first
/// word of its label and the renderings of its children; a leaf shows its
/// label and its token, with underscores read as spaces.
pub fn s_expression(tree: &ParseTree) -> (r: Option<String>)
    ensures
        opt_view(r) == render(*tree),
    decreases tree,
{
    match tree {
        ParseTree::Node(label, children) => {
            if starts_synthetic(label.as_str()) {
                if children.len() == 0 {
                    return None;
                } else {
                    return s_expression(&children[0]);
                }
            }
            let mut body = String::new();
            let mut any = false;
            let mut i: usize = 0;
            assert(children@.take(0) =~= Seq::<ParseTree>::empty());
            while i < children.len()
                invariant
                    *tree == ParseTree::Node(*label, *children),
                    i <= children@.len(),
                    body@ == join(render_all(children@.take(i as int))),
                    any == (render_all(children@.take(i as int)).len() > 0),
                decreases children@.len() - i,
            {
                let ghost prev = render_all(children@.take(i as int));
                assert(children@.take(i + 1).drop_last() =~= children@.take(i as int));
                assert(decreases_to!(*tree => tree->Node_1));
                assert(decreases_to!(tree->Node_1 => tree->Node_1@));
                assert(decreases_to!(children@ => children@[i as int]));
                let part = s_expression(&children[i]);
                match part {
                    Some(p) => {
                        if any {
                            push_char(&mut body, ' ');
                        }
                        push_str(&mut body, p.as_str());
                        assert(prev.push(p@).drop_last() =~= prev);
                        if !any {
                            assert(prev =~= Seq::<Seq<char>>::empty());
                        }
                        any = true;
                    },
                    None => {},
                }
                i += 1;
            }
            assert(children@.take(children@.len() as int) =~= children@);
            match first_word_of(label.as_str()) {
                Some(word) => Some(bracketed(word.as_str(), body.as_str())),
                None => None,
            }
        },
        ParseTree::Leaf(label, value) => {
            if starts_synthetic(label.as_str()) {
                None
            } else {
                Some(bracketed(label.as_str(), expand_underscores(value.as_str()).as_str()))
            }
        },
    }
}

/// Whether `label` starts with `<`.
pub fn starts_synthetic(label: &str) -> (r: bool)
    ensures
        r == is_synthetic(label@),
{
    let cs = chars_of(label);
    cs.len() > 0 && cs[0] == '<'
}

/// Renders each tree of `trees`, in order, keeping only those that render
/// to something.
pub fn render_trees(trees: &Vec<ParseTree>) -> (r: Vec<String>)
    ensures
        strs_of(r@) == render_all(trees@),
{
    let mut r: Vec<String> = Vec::new();
    let mut i: usize = 0;
    assert(trees@.take(0) =~= Seq::<ParseTree>::empty());
    while i < trees.len()
        invariant
            i <= trees@.len(),
            strs_of(r@) == render_all(trees@.take(i as int)),
        decreases trees@.len() - i,
    {
        assert(trees@.take(i + 1).drop_last() =~= trees@.take(i as int));
        match s_expression(&trees[i]) {
            Some(s) => {
                let ghost prev = r@;
                r.push(s);
                assert(strs_of(r@) =~= strs_of(prev).push(r@.last()@));
            },
            None => {},
        }
        i += 1;
    }
    assert(trees@.take(trees@.len() as int) =~= trees@);
    r
}

/// The token values of the leaves of `t`, left to right.
pub open spec fn leaves(t: ParseTree) -> Seq<Seq<char>>
    decreases t,
{
    match t {
        ParseTree::Node(_, children) => leaves_all(children@),
        ParseTree::Leaf(_, value) => seq![value@],
    }
}

/// The token values of the leaves of the trees of `ts`, left to right.
pub open spec fn leaves_all(ts: Seq<ParseTree>) -> Seq<Seq<char>>
    decreases ts,
{
    if ts.len() == 0 {
        Seq::empty()
    } else {
        leaves_all(ts.drop_last()) + leaves(ts.last())
    }
}

/// The leaf values that the rendering of `t` shows, left to right: what the
/// elided parts of `t` hold is not among them.
pub open spec fn rendered_leaves(t: ParseTree) -> Seq<Seq<char>>
    decreases t,
{
    match t {
        ParseTree::Node(label, children) => {
            if is_synthetic(label@) {
                if children@.len() == 0 {
                    Seq::empty()
                } else {
                    rendered_leaves(children@[0])
                }
            } else if first_word(label@) is None {
                Seq::empty()
            } else {
                rendered_leaves_all(children@)
            }
        },
        ParseTree::Leaf(label, value) => {
            if is_synthetic(label@) {
                Seq::empty()
            } else {
                seq![expand(value@)]
            }
        },
    }
}

/// The leaf values that the renderings of the trees of `ts` show, in order.
pub open spec fn rendered_leaves_all(ts: Seq<ParseTree>) -> Seq<Seq<char>>
    decreases ts,
{
    if ts.len() == 0 {
        Seq::empty()
    } else {
        rendered_leaves_all(ts.drop_last()) + rendered_leaves(ts.last())
    }
}

/// A tree with no helper layer: no label starts with `<`, and every node's
/// label has a word to show.
pub open spec fn stripped(t: ParseTree) -> bool
    decreases t,
{
    match t {
        ParseTree::Node(label, children) => !is_synthetic(label@) && first_word(label@) is Some
            && stripped_all(children@),
        ParseTree::Leaf(label, _) => !is_synthetic(label@),
    }
}

/// Every tree of `ts` is stripped.
pub open spec fn stripped_all(ts: Seq<ParseTree>) -> bool
    decreases ts,
{
    ts.len() == 0 || (stripped_all(ts.drop_last()) && stripped(ts.last()))
}

/// A helper node without children renders to nothing, wherever it stands:
/// put among the children of a node, anywhere, it leaves the renderings of
/// those children as they were.
pub proof fn lemma_empty_helper_elided(
    label: String,
    children: Vec<ParseTree>,
    before: Seq<ParseTree>,
    after: Seq<ParseTree>,
)
    requires
        is_synthetic(label@),
        children@.len() == 0,
    ensures
        render(ParseTree::Node(label, children)) is None,
        rendered_leaves(ParseTree::Node(label, children)).len() == 0,
        render_all(before + seq![ParseTree::Node(label, children)] + after) == render_all(
            before + after,
        ),
{
    let h = ParseTree::Node(label, children);
    lemma_render_all_append(before + seq![h], after);
    lemma_render_all_append(before, seq![h]);
    lemma_render_all_append(before, after);
    assert(seq![h].drop_last() =~= Seq::<ParseTree>::empty());
    assert(seq![h].last() == h);
    assert(render_all(Seq::<ParseTree>::empty()) =~= Seq::<Seq<char>>::empty());
    assert(render_all(seq![h]) =~= Seq::<Seq<char>>::empty());
    assert(render_all(before) + render_all(seq![h]) =~= render_all(before));
}

/// Rendering a concatenation renders each part in turn.
pub proof fn lemma_render_all_append(a: Seq<ParseTree>, b: Seq<ParseTree>)
    ensures
        render_all(a + b) == render_all(a) + render_all(b),
    decreases b.len(),
{
    if b.len() == 0 {
        assert(a + b =~= a);
        assert(render_all(a) + render_all(b) =~= render_all(a));
    } else {
        lemma_render_all_append(a, b.drop_last());
        assert((a + b).drop_last() =~= a + b.drop_last());
        assert((a + b).last() == b.last());
        match render(b.last()) {
            Some(x) => {
                assert(render_all(a) + render_all(b.drop_last()).push(x) =~= (render_all(a)
                    + render_all(b.drop_last())).push(x));
            },
            None => {},
        }
    }
}

/// A leaf of a category that is not a helper renders as `[label value]`,
/// with every underscore of its value turned into a space and no other
/// character changed.
pub proof fn lemma_leaf_underscores(label: String, value: String)
    requires
        !is_synthetic(label@),
    ensures
        render(ParseTree::Leaf(label, value)) == Some(bracket(label@, expand(value@))),
        expand(value@).len() == value@.len(),
        forall|i: int|
            0 <= i < value@.len() ==> #[trigger] expand(value@)[i] == if value@[i] == '_' {
                ' '
            } else {
                value@[i]
            },
        forall|i: int| 0 <= i < value@.len() ==> #[trigger] expand(value@)[i] != '_',
{
}

/// The leaf values of a stripped tree's rendering, read left to right, are
/// the tree's own tokens in order, with underscores read as spaces; and the
/// tree renders to something.
pub proof fn lemma_stripped_leaves_in_order(t: ParseTree)
    requires
        stripped(t),
    ensures
        render(t) is Some,
        rendered_leaves(t) == leaves(t).map_values(|v: Seq<char>| expand(v)),
    decreases t,
{
    match t {
        ParseTree::Node(label, children) => {
            assert(decreases_to!(t => t->Node_1));
            assert(decreases_to!(t->Node_1 => t->Node_1@));
            lemma_stripped_all_leaves_in_order(children@);
        },
        ParseTree::Leaf(_, value) => {
            assert(seq![value@].map_values(|v: Seq<char>| expand(v)) =~= seq![expand(value@)]);
        },
    }
}

/// What `lemma_stripped_leaves_in_order` states, for each tree of `ts`.
pub proof fn lemma_stripped_all_leaves_in_order(ts: Seq<ParseTree>)
    requires
        stripped_all(ts),
    ensures
        rendered_leaves_all(ts) == leaves_all(ts).map_values(|v: Seq<char>| expand(v)),
    decreases ts,
{
    if ts.len() > 0 {
        lemma_stripped_all_leaves_in_order(ts.drop_last());
        lemma_stripped_leaves_in_order(ts.last());
        assert(leaves_all(ts).map_values(|v: Seq<char>| expand(v)) =~= leaves_all(
            ts.drop_last(),
        ).map_values(|v: Seq<char>| expand(v)) + leaves(ts.last()).map_values(
            |v: Seq<char>| expand(v),
        ));
    } else {
        assert(leaves_all(ts).map_values(|v: Seq<char>| expand(v)) =~= Seq::<Seq<char>>::empty());
    }
}

/// Each value of `vs` with underscores read as spaces.
pub open spec fn expand_all(vs: Seq<Seq<char>>) -> Seq<Seq<char>> {
    vs.map_values(|v: Seq<char>| expand(v))
}

/// `c` is a square bracket.
pub open spec fn is_bracket(c: char) -> bool {
    c == '[' || c == ']'
}

/// `s` holds no square bracket.
pub open spec fn bracket_free(s: Seq<char>) -> bool {
    forall|i: int| 0 <= i < s.len() ==> !is_bracket(#[trigger] s[i])
}

/// The value of a group `label value`: what follows its first space.
pub open spec fn group_value(w: Seq<char>) -> Seq<char> {
    match w.index_of_first(' ') {
        Some(i) => w.skip(i + 1),
        None => w,
    }
}

/// The values of the innermost bracket groups of `s`, read left to right,
/// where `open` is the text of a group that is open before `s` starts.
pub open spec fn groups_from(s: Seq<char>, open: Option<Seq<char>>) -> Seq<Seq<char>>
    decreases s.len(),
{
    if s.len() == 0 {
        Seq::empty()
    } else if s[0] == '[' {
        groups_from(s.drop_first(), Some(Seq::empty()))
    } else if s[0] == ']' {
        match open {
            Some(w) => seq![group_value(w)] + groups_from(s.drop_first(), None),
            None => groups_from(s.drop_first(), None),
        }
    } else {
        match open {
            Some(w) => groups_from(s.drop_first(), Some(w.push(s[0]))),
            None => groups_from(s.drop_first(), None),
        }
    }
}

/// The group left open after reading `s`, from `open`.
pub open spec fn open_after(s: Seq<char>, open: Option<Seq<char>>) -> Option<Seq<char>>
    decreases s.len(),
{
    if s.len() == 0 {
        open
    } else if s[0] == '[' {
        open_after(s.drop_first(), Some(Seq::empty()))
    } else if s[0] == ']' {
        open_after(s.drop_first(), None)
    } else {
        match open {
            Some(w) => open_after(s.drop_first(), Some(w.push(s[0]))),
            None => open_after(s.drop_first(), None),
        }
    }
}

/// The leaf values that a reader finds in the S-expression `s`: the value
/// of each innermost `[label value]` group, left to right.
pub open spec fn shown_values(s: Seq<char>) -> Seq<Seq<char>> {
    groups_from(s, None)
}

/// A stripped tree whose rendering can be read back: no label or value holds
/// a bracket, no leaf label a space, and every node has children.
pub open spec fn plain(t: ParseTree) -> bool
    decreases t,
{
    match t {
        ParseTree::Node(label, children) => !is_synthetic(label@) && first_word(label@) is Some
            && bracket_free(first_word(label@)->0) && children@.len() > 0 && plain_all(children@),
        ParseTree::Leaf(label, value) => !is_synthetic(label@) && bracket_free(label@)
            && !label@.contains(' ') && bracket_free(value@),
    }
}

/// Every tree of `ts` is plain.
pub open spec fn plain_all(ts: Seq<ParseTree>) -> bool
    decreases ts,
{
    ts.len() == 0 || (plain_all(ts.drop_last()) && plain(ts.last()))
}

/// Reading `a + b` reads `a`, then `b` from where `a` left off.
pub proof fn lemma_groups_append(a: Seq<char>, b: Seq<char>, open: Option<Seq<char>>)
    ensures
        groups_from(a + b, open) == groups_from(a, open) + groups_from(b, open_after(a, open)),
        open_after(a + b, open) == open_after(b, open_after(a, open)),
    decreases a.len(),
{
    if a.len() == 0 {
        assert(a + b =~= b);
        assert(groups_from(a, open) + groups_from(b, open) =~= groups_from(b, open));
    } else {
        assert((a + b)[0] == a[0]);
        assert((a + b).drop_first() =~= a.drop_first() + b);
        let next = if a[0] == '[' {
            Some(Seq::<char>::empty())
        } else if a[0] == ']' {
            None
        } else {
            match open {
                Some(w) => Some(w.push(a[0])),
                None => None,
            }
        };
        lemma_groups_append(a.drop_first(), b, next);
        if a[0] == ']' && open is Some {
            assert(seq![group_value(open->0)] + groups_from(a.drop_first() + b, None) =~= (seq![
                group_value(open->0),
            ] + groups_from(a.drop_first(), None)) + groups_from(b, open_after(a, open)));
        }
    }
}

/// Reading one character.
pub proof fn lemma_groups_one(c: char, open: Option<Seq<char>>)
    ensures
        groups_from(seq![c], open) == if c == ']' && open is Some {
            seq![group_value(open->0)]
        } else {
            Seq::<Seq<char>>::empty()
        },
        open_after(seq![c], open) == if c == '[' {
            Some(Seq::<char>::empty())
        } else if c == ']' {
            None
        } else {
            match open {
                Some(w) => Some(w.push(c)),
                None => None,
            }
        },
{
    reveal_with_fuel(groups_from, 2);
    reveal_with_fuel(open_after, 2);
    assert(seq![c][0] == c);
    assert(seq![c].drop_first() =~= Seq::<char>::empty());
    if c == ']' && open is Some {
        assert(seq![group_value(open->0)] + Seq::<Seq<char>>::empty() =~= seq![group_value(open->0)]);
    }
}

/// Bracket-free text adds to an open group and closes none.
pub proof fn lemma_groups_free(s: Seq<char>, open: Option<Seq<char>>)
    requires
        bracket_free(s),
    ensures
        groups_from(s, open) == Seq::<Seq<char>>::empty(),
        open_after(s, open) == match open {
            Some(w) => Some(w + s),
            None => None,
        },
    decreases s.len(),
{
    if s.len() > 0 {
        assert(!is_bracket(s[0]));
        assert(bracket_free(s.drop_first())) by {
            assert forall|i: int| 0 <= i < s.drop_first().len() implies !is_bracket(
                #[trigger] s.drop_first()[i],
            ) by {
                assert(s.drop_first()[i] == s[i + 1]);
            }
        }
        let next = match open {
            Some(w) => Some(w.push(s[0])),
            None => None,
        };
        lemma_groups_free(s.drop_first(), next);
        if open is Some {
            assert(open->0.push(s[0]) + s.drop_first() =~= open->0 + s);
        }
    } else {
        if open is Some {
            assert(open->0 + s =~= open->0);
        }
    }
}

/// Reading the S-expression of a plain tree, left to right, finds one
/// `[label value]` group for each leaf: its values are the tree's tokens in
/// order, with underscores read as spaces. Whatever was open before, nothing
/// is open after it.
pub proof fn lemma_rendered_string_leaves(t: ParseTree, open: Option<Seq<char>>)
    requires
        plain(t),
    ensures
        render(t) is Some,
        groups_from(render(t)->0, open) == expand_all(leaves(t)),
        open_after(render(t)->0, open) is None,
    decreases t,
{
    match t {
        ParseTree::Node(label, children) => {
            assert(decreases_to!(t => t->Node_1));
            assert(decreases_to!(t->Node_1 => t->Node_1@));
            let w = first_word(label@)->0;
            lemma_rendered_all_string_leaves(children@, Some(w.push(' ')));
            let body = join(render_all(children@));
            let head = seq!['['] + w + seq![' '];
            let r = render(t)->0;
            assert(r =~= head + (body + seq![']']));
            lemma_groups_append(head, body + seq![']'], open);
            lemma_groups_append(seq!['['], w + seq![' '], open);
            assert(bracket_free(w + seq![' '])) by {
                assert forall|i: int| 0 <= i < (w + seq![' ']).len() implies !is_bracket(
                    #[trigger] (w + seq![' '])[i],
                ) by {
                    if i < w.len() {
                        assert((w + seq![' '])[i] == w[i]);
                    }
                }
            }
            lemma_groups_free(w + seq![' '], Some(Seq::empty()));
            assert(seq!['['] + (w + seq![' ']) =~= head);
            assert(Seq::<char>::empty() + (w + seq![' ']) =~= w.push(' '));
            lemma_groups_one('[', open);
            lemma_groups_append(body, seq![']'], Some(w.push(' ')));
            lemma_groups_one(']', None);
            assert(open_after(head, open) == Some(w.push(' ')));
            assert(groups_from(head, open) =~= Seq::<Seq<char>>::empty());
            assert(groups_from(body + seq![']'], Some(w.push(' '))) =~= groups_from(body, Some(w.push(' '))));
            assert(groups_from(head, open) + groups_from(body + seq![']'], Some(w.push(' ')))
                =~= groups_from(body, Some(w.push(' '))));
            assert(groups_from(body, Some(w.push(' '))) == expand_all(leaves_all(children@)));
            assert(groups_from(r, open) == groups_from(head, open) + groups_from(
                body + seq![']'],
                Some(w.push(' ')),
            ));
            assert(open_after(body + seq![']'], Some(w.push(' '))) is None);
        },
        ParseTree::Leaf(label, value) => {
            let l = label@;
            let ev = expand(value@);
            let inner = l + seq![' '] + ev;
            let r = render(t)->0;
            assert(r =~= seq!['['] + (inner + seq![']']));
            assert(bracket_free(inner)) by {
                assert forall|i: int| 0 <= i < inner.len() implies !is_bracket(#[trigger] inner[i]) by {
                    if i < l.len() {
                        assert(inner[i] == l[i]);
                    } else if i > l.len() {
                        assert(inner[i] == ev[i - l.len() - 1]);
                        assert(!is_bracket(value@[i - l.len() - 1]));
                    }
                }
            }
            lemma_groups_append(seq!['['], inner + seq![']'], open);
            lemma_groups_one('[', open);
            lemma_groups_append(inner, seq![']'], Some(Seq::empty()));
            lemma_groups_free(inner, Some(Seq::empty()));
            assert(Seq::<char>::empty() + inner =~= inner);
            lemma_groups_one(']', Some(inner));
            inner.index_of_first_ensures(' ');
            assert(inner[l.len() as int] == ' ');
            assert(inner.index_of_first(' ') == Some(l.len() as int)) by {
                let k = inner.index_of_first(' ')->0;
                if k < l.len() {
                    assert(inner[k] == l[k]);
                }
            }
            assert(inner.skip(l.len() as int + 1) =~= ev);
            assert(expand_all(seq![value@]) =~= seq![ev]);
            assert(Seq::<Seq<char>>::empty() + (Seq::<Seq<char>>::empty() + seq![group_value(inner)])
                =~= seq![ev]);
        },
    }
}

/// What `lemma_rendered_string_leaves` states, for the spaced renderings of
/// the trees of a non-empty `ts`.
pub proof fn lemma_rendered_all_string_leaves(ts: Seq<ParseTree>, open: Option<Seq<char>>)
    requires
        plain_all(ts),
        ts.len() > 0,
    ensures
        render_all(ts).len() == ts.len(),
        groups_from(join(render_all(ts)), open) == expand_all(leaves_all(ts)),
        open_after(join(render_all(ts)), open) is None,
    decreases ts,
{
    let init = ts.drop_last();
    lemma_rendered_string_leaves(ts.last(), None);
    lemma_rendered_string_leaves(ts.last(), open);
    let x = render(ts.last())->0;
    if init.len() == 0 {
        assert(render_all(init) =~= Seq::<Seq<char>>::empty());
        assert(render_all(ts) =~= seq![x]);
        assert(leaves_all(init) =~= Seq::<Seq<char>>::empty());
        assert(leaves_all(ts) =~= leaves(ts.last()));
    } else {
        lemma_rendered_all_string_leaves(init, open);
        let j = join(render_all(init));
        assert(render_all(ts).drop_last() =~= render_all(init));
        assert(join(render_all(ts)) =~= j + (seq![' '] + x));
        lemma_groups_append(j, seq![' '] + x, open);
        lemma_groups_append(seq![' '], x, None);
        lemma_groups_one(' ', None);
        assert(expand_all(leaves_all(ts)) =~= expand_all(leaves_all(init)) + expand_all(leaves(ts.last())));
        assert(Seq::<Seq<char>>::empty() + groups_from(x, None) =~= groups_from(x, None));
    }
}

} // verus!
