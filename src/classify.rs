//! The tag classifier: splits `token.TAG` units into the token list and the
//! map from each PascalCase tag to the set of tokens seen under it.
use vstd::prelude::*;
use crate::text::{chars_of, push_char, seqs_of, split_units, strs_of, units, upper_case_char, upper_first, ascii_upper};

verus! {

/// `s` with its first character upper-cased and the rest unchanged.
pub open spec fn pascal(s: Seq<char>) -> Seq<char> {
    if s.len() == 0 {
        s
    } else {
        upper_first(s[0]) + s.drop_first()
    }
}

/// The literal token of a unit: what precedes its first `.`, or all of it.
pub open spec fn token_part(u: Seq<char>) -> Seq<char> {
    match u.index_of_first('.') {
        Some(i) => u.take(i),
        None => u,
    }
}

/// The tag of a unit: what follows its first `.`, if it has one.
pub open spec fn tag_part(u: Seq<char>) -> Option<Seq<char>> {
    match u.index_of_first('.') {
        Some(i) => Some(u.skip(i + 1)),
        None => None,
    }
}

/// Upper-cases the first character of `input` and leaves the rest as it is.
pub fn pascal_case(input: &str) -> (r: String)
    ensures
        r@ == pascal(input@),
{
    let cs = chars_of(input);
    if cs.len() == 0 {
        return String::new();
    }
    let mut r = upper_case_char(cs[0]);
    let mut i: usize = 1;
    while i < cs.len()
        invariant
            1 <= i <= cs@.len(),
            cs@ == input@,
            r@ == upper_first(cs@[0]) + cs@.subrange(1, i as int),
        decreases cs@.len() - i,
    {
        push_char(&mut r, cs[i]);
        assert(cs@.subrange(1, i + 1) =~= cs@.subrange(1, i as int).push(cs@[i as int]));
        i += 1;
    }
    assert(cs@.subrange(1, cs@.len() as int) =~= cs@.drop_first());
    r
}

/// Splits a unit at its first `.` into its token and its tag, if any.
pub fn split_tag(u: &[char]) -> (r: (String, Option<String>))
    ensures
        r.0@ == token_part(u@),
        match r.1 {
            Some(t) => tag_part(u@) == Some(t@),
            None => tag_part(u@) is None,
        },
{
    let mut token = String::new();
    let mut j: usize = 0;
    while j < u.len() && u[j] != '.'
        invariant
            j <= u@.len(),
            token@ == u@.take(j as int),
            forall|k: int| 0 <= k < j ==> u@[k] != '.',
        decreases u@.len() - j,
    {
        push_char(&mut token, u[j]);
        assert(u@.take(j + 1) =~= u@.take(j as int).push(u@[j as int]));
        j += 1;
    }
    proof {
        u@.index_of_first_ensures('.');
    }
    if j == u.len() {
        assert(!u@.contains('.'));
        assert(u@.take(j as int) =~= u@);
        (token, None)
    } else {
        assert(u@.contains('.'));
        let mut tag = String::new();
        let mut k: usize = j + 1;
        while k < u.len()
            invariant
                j < k <= u@.len(),
                tag@ == u@.subrange(j + 1, k as int),
            decreases u@.len() - k,
        {
            push_char(&mut tag, u[k]);
            assert(u@.subrange(j + 1, k + 1) =~= u@.subrange(j + 1, k as int).push(u@[k as int]));
            k += 1;
        }
        assert(u@.subrange(j + 1, u@.len() as int) =~= u@.skip(j + 1));
        (token, Some(tag))
    }
}

/// The tags of all tagged units of `us`, PascalCased, each mapped to the set
/// of the tokens seen under it.
pub open spec fn tag_map_of(us: Seq<Seq<char>>) -> Map<Seq<char>, Set<Seq<char>>>
    decreases us.len(),
{
    if us.len() == 0 {
        Map::empty()
    } else {
        let m = tag_map_of(us.drop_last());
        match tag_part(us.last()) {
            Some(t) => {
                let k = pascal(t);
                let seen = if m.contains_key(k) { m[k] } else { Set::empty() };
                m.insert(k, seen.insert(token_part(us.last())))
            },
            None => m,
        }
    }
}

/// One tag and the distinct tokens seen under it.
pub struct TagEntry {
    pub tag: String,
    pub tokens: Vec<String>,
}

impl TagEntry {
    /// Whether `token` is one of the tokens of this tag: the test by which
    /// the tag's terminal category recognises a token.
    pub fn contains(&self, token: &str) -> (r: bool)
        ensures
            r == strs_of(self.tokens@).contains(token@),
    {
        let mut i: usize = 0;
        while i < self.tokens.len()
            invariant
                i <= self.tokens@.len(),
                forall|j: int| 0 <= j < i ==> self.tokens@[j]@ != token@,
            decreases self.tokens@.len() - i,
        {
            if str_eq(self.tokens[i].as_str(), token) {
                assert(strs_of(self.tokens@)[i as int] == token@);
                return true;
            }
            i += 1;
        }
        assert(!strs_of(self.tokens@).contains(token@)) by {
            if strs_of(self.tokens@).contains(token@) {
                let j = choose|j: int| 0 <= j < self.tokens@.len() && strs_of(self.tokens@)[j] == token@;
                assert(self.tokens@[j]@ == token@);
            }
        }
        false
    }
}

/// Whether `a` and `b` hold the same characters.
fn str_eq(a: &str, b: &str) -> (r: bool)
    ensures
        r == (a@ == b@),
{
    let x = chars_of(a);
    let y = chars_of(b);
    if x.len() != y.len() {
        return false;
    }
    let mut i: usize = 0;
    while i < x.len()
        invariant
            i <= x@.len(),
            x@.len() == y@.len(),
            x@ == a@,
            y@ == b@,
            forall|j: int| 0 <= j < i ==> x@[j] == y@[j],
        decreases x@.len() - i,
    {
        if x[i] != y[i] {
            return false;
        }
        i += 1;
    }
    assert(x@ =~= y@);
    true
}

/// Whether some entry of `es` has the tag `k`.
pub open spec fn has_tag(es: Seq<TagEntry>, k: Seq<char>) -> bool {
    exists|i: int| 0 <= i < es.len() && #[trigger] es[i].tag@ == k
}

/// The tokens of the entries of `es` with the tag `k`.
pub open spec fn tokens_under(es: Seq<TagEntry>, k: Seq<char>) -> Set<Seq<char>> {
    Set::new(
        |t: Seq<char>|
            exists|i: int|
                0 <= i < es.len() && #[trigger] es[i].tag@ == k && strs_of(es[i].tokens@).contains(t),
    )
}

/// The map from each tag to the set of tokens seen under it.
pub struct TagMap {
    pub entries: Vec<TagEntry>,
}

impl View for TagMap {
    type V = Map<Seq<char>, Set<Seq<char>>>;

    open spec fn view(&self) -> Map<Seq<char>, Set<Seq<char>>> {
        Map::new(|k: Seq<char>| has_tag(self.entries@, k), |k: Seq<char>| tokens_under(self.entries@, k))
    }
}

impl TagMap {
    /// No two entries share a tag, and no entry holds a token twice.
    pub open spec fn wf(&self) -> bool {
        &&& forall|i: int, j: int|
            0 <= i < j < self.entries@.len() ==> #[trigger] self.entries@[i].tag@ != #[trigger] self.entries@[j].tag@
        &&& forall|i: int| 0 <= i < self.entries@.len() ==> #[trigger] strs_of(self.entries@[i].tokens@).no_duplicates()
    }

    /// The empty map.
    pub fn new() -> (r: TagMap)
        ensures
            r.wf(),
            r@ == Map::<Seq<char>, Set<Seq<char>>>::empty(),
    {
        let r = TagMap { entries: Vec::new() };
        assert(r@ =~= Map::<Seq<char>, Set<Seq<char>>>::empty());
        r
    }

    /// Adds `token` to the set of the tag `tag`, creating the set if the tag
    /// is new.
    pub fn insert(&mut self, tag: String, token: String)
        requires
            old(self).wf(),
        ensures
            final(self).wf(),
            final(self)@ == old(self)@.insert(
                tag@,
                (if old(self)@.contains_key(tag@) { old(self)@[tag@] } else { Set::empty() }).insert(token@),
            ),
    {
        let ghost old_es = self.entries@;
        let ghost target = old(self)@.insert(
            tag@,
            (if old(self)@.contains_key(tag@) { old(self)@[tag@] } else { Set::empty() }).insert(token@),
        );
        let mut i: usize = 0;
        while i < self.entries.len()
            invariant
                i <= self.entries@.len(),
                self.entries@ == old_es,
                old(self).entries@ == old_es,
                old(self).wf(),
                target == old(self)@.insert(
                    tag@,
                    (if old(self)@.contains_key(tag@) { old(self)@[tag@] } else { Set::empty() }).insert(token@),
                ),
                forall|j: int| 0 <= j < i ==> old_es[j].tag@ != tag@,
            decreases self.entries@.len() - i,
        {
            if str_eq(self.entries[i].tag.as_str(), tag.as_str()) {
                if self.entries[i].contains(token.as_str()) {
                    assert(self@ =~= target) by {
                        assert(old_es[i as int].tag@ == tag@);
                        assert(strs_of(old_es[i as int].tokens@).contains(token@));
                        assert(tokens_under(old_es, tag@).contains(token@));
                        assert(has_tag(old_es, tag@));
                        assert(old(self)@.contains_key(tag@));
                        assert(old(self)@[tag@].insert(token@) =~= old(self)@[tag@]);
                        assert(old(self)@.insert(tag@, old(self)@[tag@]) =~= old(self)@);
                        assert(tokens_under(old_es, tag@).insert(token@) =~= tokens_under(old_es, tag@));
                    }
                    return;
                }
                let mut e = self.entries.remove(i);
                let ghost old_toks = e.tokens@;
                e.tokens.push(token);
                self.entries.insert(i, e);
                assert(self.entries@ =~= old_es.update(i as int, self.entries@[i as int]));
                assert(strs_of(self.entries@[i as int].tokens@) =~= strs_of(old_toks).push(token@));
                assert(old_toks == old_es[i as int].tokens@);
                assert(strs_of(self.entries@[i as int].tokens@).no_duplicates()) by {
                    assert(strs_of(old_toks).no_duplicates());
                    assert(!strs_of(old_toks).contains(token@));
                }
                assert(forall|m: int| 0 <= m < old_es.len() ==> #[trigger] self.entries@[m].tag@ == old_es[m].tag@);
                assert forall|k: Seq<char>| true implies tokens_under(self.entries@, k) =~= (if k == tag@ {
                    tokens_under(old_es, k).insert(token@)
                } else {
                    tokens_under(old_es, k)
                }) by {
                    assert forall|t: Seq<char>| tokens_under(old_es, k).contains(t) implies tokens_under(self.entries@, k).contains(t) by {
                        let j = choose|j: int| 0 <= j < old_es.len() && #[trigger] old_es[j].tag@ == k && strs_of(old_es[j].tokens@).contains(t);
                        if j == i {
                            let m = choose|m: int| 0 <= m < strs_of(old_toks).len() && strs_of(old_toks)[m] == t;
                            assert(strs_of(self.entries@[j].tokens@)[m] == t);
                        }
                        assert(self.entries@[j].tag@ == k);
                    }
                    if k == tag@ {
                        assert(strs_of(self.entries@[i as int].tokens@)[old_toks.len() as int] == token@);
                        assert(self.entries@[i as int].tag@ == k);
                    }
                    assert forall|t: Seq<char>| tokens_under(self.entries@, k).contains(t) implies (if k == tag@ {
                        tokens_under(old_es, k).insert(token@)
                    } else {
                        tokens_under(old_es, k)
                    }).contains(t) by {
                        let j = choose|j: int| 0 <= j < self.entries@.len() && #[trigger] self.entries@[j].tag@ == k && strs_of(self.entries@[j].tokens@).contains(t);
                        if j == i {
                            if t != token@ {
                                let m = choose|m: int| 0 <= m < strs_of(self.entries@[j].tokens@).len() && strs_of(self.entries@[j].tokens@)[m] == t;
                                assert(strs_of(old_toks)[m] == t);
                            }
                            assert(old_es[j].tag@ == k);
                        } else {
                            assert(old_es[j].tag@ == k);
                        }
                    }
                }
                assert forall|k: Seq<char>| has_tag(self.entries@, k) == has_tag(old_es, k) by {
                    if has_tag(old_es, k) {
                        let j = choose|j: int| 0 <= j < old_es.len() && #[trigger] old_es[j].tag@ == k;
                        assert(self.entries@[j].tag@ == k);
                    }
                    if has_tag(self.entries@, k) {
                        let j = choose|j: int| 0 <= j < self.entries@.len() && #[trigger] self.entries@[j].tag@ == k;
                        assert(old_es[j].tag@ == k);
                    }
                }
                assert(has_tag(old_es, tag@)) by {
                    assert(old_es[i as int].tag@ == tag@);
                }
                assert(self@ =~= target);
                return;
            }
            i += 1;
        }
        assert(!has_tag(old_es, tag@));
        let mut toks: Vec<String> = Vec::new();
        toks.push(token);
        let ghost new_tag = tag@;
        self.entries.push(TagEntry { tag, tokens: toks });
        assert(strs_of(self.entries@.last().tokens@) =~= seq![token@]);
        assert forall|k: Seq<char>| true implies tokens_under(self.entries@, k) =~= (if k == new_tag {
            Set::empty().insert(token@)
        } else {
            tokens_under(old_es, k)
        }) by {
            let n = old_es.len() as int;
            assert(self.entries@[n].tag@ == new_tag);
            assert forall|t: Seq<char>| tokens_under(self.entries@, k).contains(t) implies (if k == new_tag {
                Set::empty().insert(token@)
            } else {
                tokens_under(old_es, k)
            }).contains(t) by {
                let j = choose|j: int| 0 <= j < self.entries@.len() && #[trigger] self.entries@[j].tag@ == k && strs_of(self.entries@[j].tokens@).contains(t);
                if j < n {
                    assert(old_es[j].tag@ == k);
                }
            }
            if k == new_tag {
                assert(strs_of(self.entries@[n].tokens@)[0] == token@);
            } else {
                assert forall|t: Seq<char>| tokens_under(old_es, k).contains(t) implies tokens_under(self.entries@, k).contains(t) by {
                    let j = choose|j: int| 0 <= j < old_es.len() && #[trigger] old_es[j].tag@ == k && strs_of(old_es[j].tokens@).contains(t);
                    assert(self.entries@[j].tag@ == k);
                }
            }
        }
        assert forall|k: Seq<char>| has_tag(self.entries@, k) == (has_tag(old_es, k) || k == new_tag) by {
            let n = old_es.len() as int;
            assert(self.entries@[n].tag@ == new_tag);
            if has_tag(old_es, k) {
                let j = choose|j: int| 0 <= j < old_es.len() && #[trigger] old_es[j].tag@ == k;
                assert(self.entries@[j].tag@ == k);
            }
            if has_tag(self.entries@, k) {
                let j = choose|j: int| 0 <= j < self.entries@.len() && #[trigger] self.entries@[j].tag@ == k;
                if j < n {
                    assert(old_es[j].tag@ == k);
                }
            }
        }
        assert(self@ =~= target);
    }
}

/// The literal tokens of the units of `us`, in order.
pub open spec fn tokens_of(us: Seq<Seq<char>>) -> Seq<Seq<char>> {
    us.map_values(|u: Seq<char>| token_part(u))
}

/// What the classifier makes of an input: its tokens in order, and its tags.
pub struct Classified {
    pub tokens: Vec<String>,
    pub tags: TagMap,
}

/// Splits `input` into white-space-separated units; takes each unit's token
/// (before its first `.`) in order, duplicates kept; and files the token
/// under the PascalCased tag (after that `.`), if the unit has one.
pub fn classify(input: &str) -> (r: Classified)
    ensures
        strs_of(r.tokens@) == tokens_of(units(input@)),
        r.tags.wf(),
        r.tags@ == tag_map_of(units(input@)),
{
    let us = split_units(&chars_of(input));
    let ghost all = units(input@);
    let mut tokens: Vec<String> = Vec::new();
    let mut tags = TagMap::new();
    let mut i: usize = 0;
    assert(all.take(0) =~= Seq::<Seq<char>>::empty());
    assert(strs_of(tokens@) =~= tokens_of(all.take(0)));
    while i < us.len()
        invariant
            i <= us@.len(),
            seqs_of(us@) == all,
            strs_of(tokens@) == tokens_of(all.take(i as int)),
            tags.wf(),
            tags@ == tag_map_of(all.take(i as int)),
        decreases us@.len() - i,
    {
        let ghost u = all[i as int];
        assert(us@[i as int]@ == u);
        assert(all.take(i + 1).drop_last() =~= all.take(i as int));
        assert(all.take(i + 1).last() == u);
        let (token, tag) = split_tag(us[i].as_slice());
        let ghost prev = tokens@;
        match tag {
            Some(t) => {
                let key = pascal_case(t.as_str());
                tokens.push(copy_of(&token));
                tags.insert(key, token);
            },
            None => {
                tokens.push(token);
            },
        }
        assert(strs_of(tokens@) =~= strs_of(prev).push(token_part(u)));
        assert(tokens_of(all.take(i + 1)) =~= tokens_of(all.take(i as int)).push(token_part(u)));
        i += 1;
    }
    assert(all.take(us@.len() as int) =~= all);
    Classified { tokens, tags }
}

/// A copy of `s`.
fn copy_of(s: &String) -> (r: String)
    ensures
        r@ == s@,
{
    s.clone()
}

/// Every unit of `us` has a tag, and no two units have the same tag once
/// PascalCased.
pub open spec fn tags_unique(us: Seq<Seq<char>>) -> bool {
    &&& forall|i: int| 0 <= i < us.len() ==> (#[trigger] tag_part(us[i])) is Some
    &&& forall|i: int, j: int|
        0 <= i < j < us.len() ==> pascal(#[trigger] tag_part(us[i])->0) != pascal(
            #[trigger] tag_part(us[j])->0,
        )
}

/// The PascalCased tags of the units of `us`.
pub open spec fn pascal_tags(us: Seq<Seq<char>>) -> Set<Seq<char>> {
    Set::new(|k: Seq<char>| exists|i: int| 0 <= i < us.len() && #[trigger] pascal(tag_part(us[i])->0) == k)
}

/// Where every unit has a tag of its own, the tag map has one entry for each
/// tag, which holds that unit's token alone.
pub proof fn lemma_unique_tags(input: Seq<char>)
    requires
        tags_unique(units(input)),
    ensures
        tag_map_of(units(input)).dom() == pascal_tags(units(input)),
        forall|i: int|
            0 <= i < units(input).len() ==> tag_map_of(units(input))[pascal(
                #[trigger] tag_part(units(input)[i])->0,
            )] == set![token_part(units(input)[i])],
{
    lemma_unique_tags_units(units(input));
}

/// What `lemma_unique_tags` states, for any sequence of units.
pub proof fn lemma_unique_tags_units(us: Seq<Seq<char>>)
    requires
        tags_unique(us),
    ensures
        tag_map_of(us).dom() == pascal_tags(us),
        forall|i: int|
            0 <= i < us.len() ==> tag_map_of(us)[pascal(#[trigger] tag_part(us[i])->0)] == set![
                token_part(us[i]),
            ],
    decreases us.len(),
{
    if us.len() == 0 {
        assert(pascal_tags(us) =~= Set::empty());
        assert(tag_map_of(us).dom() =~= Set::empty());
    } else {
        let init = us.drop_last();
        assert(forall|i: int| 0 <= i < init.len() ==> init[i] == us[i]);
        assert(tags_unique(init)) by {
            assert forall|i: int, j: int| 0 <= i < j < init.len() implies pascal(
                #[trigger] tag_part(init[i])->0,
            ) != pascal(#[trigger] tag_part(init[j])->0) by {
                assert(tag_part(init[i]) == tag_part(us[i]));
                assert(tag_part(init[j]) == tag_part(us[j]));
            }
            assert forall|i: int| 0 <= i < init.len() implies (#[trigger] tag_part(init[i])) is Some by {
                assert(tag_part(us[i]) is Some);
            }
        }
        lemma_unique_tags_units(init);
        let n = us.len() - 1;
        let k = pascal(tag_part(us[n])->0);
        assert(tag_part(us.last()) is Some) by {
            assert(tag_part(us[n]) is Some);
        }
        assert(!tag_map_of(init).contains_key(k)) by {
            if pascal_tags(init).contains(k) {
                let i = choose|i: int| 0 <= i < init.len() && #[trigger] pascal(tag_part(init[i])->0) == k;
                assert(tag_part(init[i]) == tag_part(us[i]));
                assert(pascal(tag_part(us[i])->0) != pascal(tag_part(us[n])->0));
            }
        }
        assert(tag_map_of(us) == tag_map_of(init).insert(k, Set::empty().insert(token_part(us[n]))));
        assert(Set::<Seq<char>>::empty().insert(token_part(us[n])) =~= set![token_part(us[n])]);
        assert forall|x: Seq<char>| #[trigger] pascal_tags(us).contains(x) == (pascal_tags(init).contains(x) || x == k) by {
            if pascal_tags(us).contains(x) {
                let i = choose|i: int| 0 <= i < us.len() && #[trigger] pascal(tag_part(us[i])->0) == x;
                if i < n {
                    assert(pascal(tag_part(init[i])->0) == x);
                }
            }
            if pascal_tags(init).contains(x) {
                let i = choose|i: int| 0 <= i < init.len() && #[trigger] pascal(tag_part(init[i])->0) == x;
                assert(pascal(tag_part(us[i])->0) == x);
            }
        }
        assert(tag_map_of(us).dom() =~= pascal_tags(us));
        assert forall|i: int| 0 <= i < us.len() implies tag_map_of(us)[pascal(
            #[trigger] tag_part(us[i])->0,
        )] == set![token_part(us[i])] by {
            if i < n {
                assert(tag_part(init[i]) == tag_part(us[i]));
                assert(pascal(tag_part(us[i])->0) != k);
            }
        }
    }
}

/// The classifier keeps one token for each unit of its input, in order.
pub proof fn lemma_tokens_follow_units(input: Seq<char>)
    ensures
        tokens_of(units(input)).len() == units(input).len(),
        forall|i: int|
            0 <= i < units(input).len() ==> #[trigger] tokens_of(units(input))[i] == token_part(
                units(input)[i],
            ),
{
}

/// A string whose first character is its own upper case (or that is empty)
/// is already PascalCase: PascalCasing leaves it as it is, so doing it twice
/// gives what doing it once gives.
pub proof fn lemma_pascal_idempotent(x: Seq<char>)
    requires
        x.len() == 0 || upper_first(x[0]) == seq![x[0]],
    ensures
        pascal(x) == x,
        pascal(pascal(x)) == pascal(x),
{
    if x.len() > 0 {
        assert(seq![x[0]] + x.drop_first() =~= x);
    }
}

/// PascalCasing a string that starts with an ASCII character (or is empty)
/// twice gives what doing it once gives.
pub proof fn lemma_pascal_twice_ascii(x: Seq<char>)
    requires
        x.len() == 0 || (x[0] as u32) < 128,
    ensures
        pascal(pascal(x)) == pascal(x),
{
    if x.len() > 0 {
        let y = pascal(x);
        assert(y[0] == ascii_upper(x[0]));
        assert(y.drop_first() =~= x.drop_first());
        assert(upper_first(y[0]) == seq![y[0]]);
    }
}

/// `a` and `b` are the same string but for the case of an ASCII first letter.
pub open spec fn same_up_to_first_case(a: Seq<char>, b: Seq<char>) -> bool {
    &&& a.len() == b.len()
    &&& a.len() == 0 || (ascii_upper(a[0]) == ascii_upper(b[0]) && a.drop_first() == b.drop_first())
}

/// Every unit of `us` has a tag, empty or starting with an ASCII character,
/// and no two tags are the same but for the case of the first letter.
pub open spec fn ascii_tags_distinct(us: Seq<Seq<char>>) -> bool {
    &&& forall|i: int| 0 <= i < us.len() ==> (#[trigger] tag_part(us[i])) is Some
    &&& forall|i: int|
        0 <= i < us.len() ==> (#[trigger] tag_part(us[i]))->0.len() == 0 || (tag_part(
            us[i],
        )->0[0] as u32) < 128
    &&& forall|i: int, j: int|
        0 <= i < j < us.len() ==> !same_up_to_first_case(
            #[trigger] tag_part(us[i])->0,
            #[trigger] tag_part(us[j])->0,
        )
}

/// Where every unit has an ASCII tag of its own (tags that differ in more
/// than the case of their first letter), the tag map has one entry for each
/// tag, which holds that unit's token alone.
pub proof fn lemma_unique_ascii_tags(input: Seq<char>)
    requires
        ascii_tags_distinct(units(input)),
    ensures
        tag_map_of(units(input)).dom() == pascal_tags(units(input)),
        tag_map_of(units(input)).dom().len() == units(input).len(),
        forall|i: int|
            0 <= i < units(input).len() ==> tag_map_of(units(input))[pascal(
                #[trigger] tag_part(units(input)[i])->0,
            )] == set![token_part(units(input)[i])],
{
    let us = units(input);
    assert forall|i: int, j: int| 0 <= i < j < us.len() implies pascal(
        #[trigger] tag_part(us[i])->0,
    ) != pascal(#[trigger] tag_part(us[j])->0) by {
        let a = tag_part(us[i])->0;
        let b = tag_part(us[j])->0;
        assert(!same_up_to_first_case(a, b));
        if pascal(a) == pascal(b) {
            if a.len() > 0 && b.len() > 0 {
                assert(pascal(a)[0] == ascii_upper(a[0]));
                assert(pascal(b)[0] == ascii_upper(b[0]));
                assert(pascal(a).drop_first() =~= a.drop_first());
                assert(pascal(b).drop_first() =~= b.drop_first());
            }
        }
    }
    lemma_unique_tags_units(us);
    lemma_pascal_tags_len(us);
}

/// Units whose PascalCased tags are pairwise distinct have as many tags as
/// units.
proof fn lemma_pascal_tags_len(us: Seq<Seq<char>>)
    requires
        tags_unique(us),
    ensures
        pascal_tags(us).finite(),
        pascal_tags(us).len() == us.len(),
    decreases us.len(),
{
    if us.len() == 0 {
        assert(pascal_tags(us) =~= Set::empty());
    } else {
        let init = us.drop_last();
        let n = us.len() - 1;
        assert(forall|i: int| 0 <= i < init.len() ==> init[i] == us[i]);
        assert(tags_unique(init)) by {
            assert forall|i: int, j: int| 0 <= i < j < init.len() implies pascal(
                #[trigger] tag_part(init[i])->0,
            ) != pascal(#[trigger] tag_part(init[j])->0) by {
                assert(tag_part(init[i]) == tag_part(us[i]));
                assert(tag_part(init[j]) == tag_part(us[j]));
            }
            assert forall|i: int| 0 <= i < init.len() implies (#[trigger] tag_part(init[i])) is Some by {
                assert(tag_part(us[i]) is Some);
            }
        }
        lemma_pascal_tags_len(init);
        let k = pascal(tag_part(us[n])->0);
        assert(pascal_tags(us) =~= pascal_tags(init).insert(k)) by {
            assert forall|x: Seq<char>| #[trigger] pascal_tags(us).contains(x) == (pascal_tags(init).contains(x) || x == k) by {
                if pascal_tags(us).contains(x) {
                    let i = choose|i: int| 0 <= i < us.len() && #[trigger] pascal(tag_part(us[i])->0) == x;
                    if i < n {
                        assert(pascal(tag_part(init[i])->0) == x);
                    }
                }
                if pascal_tags(init).contains(x) {
                    let i = choose|i: int| 0 <= i < init.len() && #[trigger] pascal(tag_part(init[i])->0) == x;
                    assert(pascal(tag_part(us[i])->0) == x);
                }
            }
        }
        assert(!pascal_tags(init).contains(k)) by {
            if pascal_tags(init).contains(k) {
                let i = choose|i: int| 0 <= i < init.len() && #[trigger] pascal(tag_part(init[i])->0) == k;
                assert(tag_part(init[i]) == tag_part(us[i]));
                assert(pascal(tag_part(us[i])->0) != pascal(tag_part(us[n])->0));
            }
        }
    }
}

} // verus!
