//! Characters and strings: whitespace units, upper-casing, string building.
use vstd::prelude::*;
use vstd::std_specs::iter::IteratorSpec;

verus! {

broadcast use vstd::string::axiom_spec_iter;

/// Whether `c` has Unicode's White_Space property: tab through carriage
/// return, space, next line, no-break space, ogham space mark, en quad
/// through hair space, line and paragraph separators, narrow no-break space,
/// medium mathematical space and ideographic space.
pub open spec fn white_space(c: char) -> bool {
    let u = c as u32;
    ||| 0x09 <= u <= 0x0d
    ||| u == 0x20
    ||| u == 0x85
    ||| u == 0xa0
    ||| u == 0x1680
    ||| 0x2000 <= u <= 0x200a
    ||| u == 0x2028
    ||| u == 0x2029
    ||| u == 0x202f
    ||| u == 0x205f
    ||| u == 0x3000
}

/// The upper case of an ASCII character: a lower-case letter becomes its
/// capital, anything else stays.
pub open spec fn ascii_upper(c: char) -> char {
    if 'a' <= c <= 'z' {
        ((c as u32) - 32) as char
    } else {
        c
    }
}

/// The upper-case mapping of `c`, as `char::to_uppercase` gives it: on ASCII
/// the ASCII upper case, elsewhere what Unicode's case tables say.
pub open spec fn upper_first(c: char) -> Seq<char> {
    if (c as u32) < 128 {
        seq![ascii_upper(c)]
    } else {
        upper_of(c)
    }
}

/// What `char::to_uppercase` yields for `c` (Unicode's full upper-case mapping).
pub uninterp spec fn upper_of(c: char) -> Seq<char>;

/// Relies on `char::is_whitespace`: whether `c` has the White_Space
/// property.
#[verifier::external_body]
pub(crate) fn is_white_space(c: char) -> (r: bool)
    ensures
        r == white_space(c),
{
    c.is_whitespace()
}

/// Relies on `char::to_uppercase`: the upper-case mapping of `c`, one or
/// more characters that depend on `c` alone; on ASCII, the ASCII upper case.
#[verifier::external_body]
pub(crate) fn upper_case_char(c: char) -> (r: String)
    ensures
        (c as u32) < 128 ==> r@ == seq![ascii_upper(c)],
        (c as u32) >= 128 ==> r@ == upper_of(c),
        r@.len() >= 1,
{
    c.to_uppercase().collect()
}

/// Relies on `String::push`: appends `c` at the end.
#[verifier::external_body]
pub(crate) fn push_char(s: &mut String, c: char)
    ensures
        final(s)@ == old(s)@.push(c),
{
    s.push(c)
}

/// Relies on `String::push_str`: appends `t` at the end.
#[verifier::external_body]
pub(crate) fn push_str(s: &mut String, t: &str)
    ensures
        final(s)@ == old(s)@ + t@,
{
    s.push_str(t)
}

/// The characters of `s`, in order.
pub fn chars_of(s: &str) -> (r: Vec<char>)
    ensures
        r@ == s@,
{
    let mut r: Vec<char> = Vec::new();
    for c in it: s.chars()
        invariant
            it.seq() == s@,
            r@ == it.seq().take(it.index() as int),
    {
        r.push(c);
    }
    r
}

/// The string made of the characters `cs`.
pub fn string_of(cs: &[char]) -> (r: String)
    ensures
        r@ == cs@,
{
    let mut r = String::new();
    let mut i: usize = 0;
    while i < cs.len()
        invariant
            i <= cs@.len(),
            r@ == cs@.take(i as int),
        decreases cs@.len() - i,
    {
        push_char(&mut r, cs[i]);
        assert(cs@.take(i + 1) == cs@.take(i as int).push(cs@[i as int]));
        i += 1;
    }
    assert(cs@.take(cs@.len() as int) == cs@);
    r
}

/// Units of `s` (maximal runs of non-white-space characters), with `cur`
/// the unit under way before `s` starts.
pub open spec fn units_from(s: Seq<char>, cur: Seq<char>) -> Seq<Seq<char>>
    decreases s.len(),
{
    let flushed = if cur.len() > 0 { seq![cur] } else { Seq::empty() };
    if s.len() == 0 {
        flushed
    } else if white_space(s[0]) {
        flushed + units_from(s.drop_first(), Seq::empty())
    } else {
        units_from(s.drop_first(), cur.push(s[0]))
    }
}

/// The maximal runs of non-white-space characters of `s`, in order.
pub open spec fn units(s: Seq<char>) -> Seq<Seq<char>> {
    units_from(s, Seq::empty())
}

/// The characters held by each vector of `v`.
pub open spec fn seqs_of(v: Seq<Vec<char>>) -> Seq<Seq<char>> {
    v.map_values(|u: Vec<char>| u@)
}

/// The characters held by each string of `v`.
pub open spec fn strs_of(v: Seq<String>) -> Seq<Seq<char>> {
    v.map_values(|u: String| u@)
}

/// Splits `s` into its units.
pub fn split_units(s: &Vec<char>) -> (r: Vec<Vec<char>>)
    ensures
        seqs_of(r@) == units(s@),
{
    let mut r: Vec<Vec<char>> = Vec::new();
    let mut cur: Vec<char> = Vec::new();
    let mut i: usize = 0;
    assert(s@.subrange(0, s@.len() as int) =~= s@);
    assert(seqs_of(r@) =~= Seq::<Seq<char>>::empty());
    while i < s.len()
        invariant
            i <= s@.len(),
            seqs_of(r@) + units_from(s@.subrange(i as int, s@.len() as int), cur@) == units(s@),
        decreases s@.len() - i,
    {
        let ghost rest = s@.subrange(i as int, s@.len() as int);
        assert(rest.drop_first() == s@.subrange(i + 1, s@.len() as int));
        let c = s[i];
        assert(rest[0] == c);
        if is_white_space(c) {
            if cur.len() > 0 {
                let ghost old_r = seqs_of(r@);
                let ghost old_cur = cur@;
                r.push(cur);
                assert(seqs_of(r@) =~= old_r.push(old_cur));
                cur = Vec::new();
                assert(units_from(rest, old_cur) == seq![old_cur] + units_from(rest.drop_first(), Seq::empty()));
                assert(old_r + (seq![old_cur] + units_from(rest.drop_first(), Seq::empty()))
                    =~= seqs_of(r@) + units_from(rest.drop_first(), Seq::empty()));
            } else {
                assert(cur@ =~= Seq::<char>::empty());
                assert(Seq::<Seq<char>>::empty() + units_from(rest.drop_first(), cur@)
                    =~= units_from(rest.drop_first(), cur@));
            }
        } else {
            assert(units_from(rest, cur@) == units_from(rest.drop_first(), cur@.push(c)));
            cur.push(c);
        }
        i += 1;
    }
    assert(s@.subrange(s@.len() as int, s@.len() as int).len() == 0);
    if cur.len() > 0 {
        let ghost old_r = seqs_of(r@);
        let ghost old_cur = cur@;
        r.push(cur);
        assert(seqs_of(r@) =~= old_r.push(old_cur));
    } else {
        assert(seqs_of(r@) + Seq::<Seq<char>>::empty() =~= seqs_of(r@));
    }
    r
}

} // verus!
