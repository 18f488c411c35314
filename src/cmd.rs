//! Parsing of the trailing command-line arguments: the paths, then `--`, then
//! `group=value` tokens.

use crate::replace::replacements;
use crate::types::{Error, Groups, PosGroups};
use std::collections::HashMap;
use vstd::prelude::*;

verus! {

broadcast use vstd::std_specs::hash::group_hash_axioms;

/// Index of the first `=` in `s`.
pub open spec fn eq_pos(s: Seq<char>) -> Option<int>
    decreases s.len(),
{
    if s.len() == 0 {
        None
    } else if s[0] == '=' {
        Some(0)
    } else {
        match eq_pos(s.drop_first()) {
            Some(i) => Some(i + 1),
            None => None,
        }
    }
}

/// A token has the form `key=value`.
pub open spec fn well_formed(t: Seq<char>) -> bool {
    eq_pos(t) is Some
}

/// What stands before the first `=`.
pub open spec fn key_of(t: Seq<char>) -> Seq<char> {
    t.subrange(0, eq_pos(t)->Some_0)
}

/// What stands after the first `=`.
pub open spec fn value_of(t: Seq<char>) -> Seq<char> {
    t.subrange(eq_pos(t)->Some_0 + 1, t.len() as int)
}

pub open spec fn is_digit(b: u8) -> bool {
    48 <= b <= 57
}

/// Value of a string of decimal digits.
pub open spec fn digits_value(s: Seq<u8>) -> nat
    decreases s.len(),
{
    if s.len() == 0 {
        0
    } else {
        digits_value(s.drop_last()) * 10 + (s.last() - 48) as nat
    }
}

/// The digits of a decimal number, after an optional leading `+`.
pub open spec fn unsigned_digits(s: Seq<u8>) -> Seq<u8> {
    if s.len() > 0 && s[0] == 43 {
        s.drop_first()
    } else {
        s
    }
}

/// The group index that `s` spells: an optional `+`, then one or more
/// decimal digits whose value fits in a `usize`.
pub open spec fn index_of_key(s: Seq<u8>) -> Option<usize> {
    let d = unsigned_digits(s);
    if d.len() > 0 && (forall|i: int| 0 <= i < d.len() ==> is_digit(#[trigger] d[i]))
        && digits_value(d) <= usize::MAX {
        Some(digits_value(d) as usize)
    } else {
        None
    }
}

/// The group index a well-formed token addresses, or `None` for a named key.
pub open spec fn position_of(t: Seq<char>) -> Option<usize> {
    index_of_key(vstd::utf8::encode_utf8(key_of(t)))
}

pub open spec fn token_views(raw: Seq<&str>) -> Seq<Seq<char>> {
    raw.map_values(|s: &str| s@)
}

/// Index of the first token that is not of the form `key=value`.
pub open spec fn first_malformed(toks: Seq<Seq<char>>) -> Option<int>
    decreases toks.len(),
{
    if toks.len() == 0 {
        None
    } else {
        match first_malformed(toks.drop_last()) {
            Some(i) => Some(i),
            None => if well_formed(toks.last()) {
                None
            } else {
                Some(toks.len() - 1)
            },
        }
    }
}

pub open spec fn has_positional(toks: Seq<Seq<char>>) -> bool {
    exists|i: int| 0 <= i < toks.len() && (#[trigger] position_of(toks[i])) is Some
}

pub open spec fn has_named(toks: Seq<Seq<char>>) -> bool {
    exists|i: int| 0 <= i < toks.len() && (#[trigger] position_of(toks[i])) is None
}

/// The positional replacements of well-formed tokens; a later token for the
/// same index wins.
pub open spec fn positional_map(toks: Seq<Seq<char>>) -> Map<usize, Seq<u8>>
    decreases toks.len(),
{
    if toks.len() == 0 {
        Map::empty()
    } else {
        let prev = positional_map(toks.drop_last());
        let t = toks.last();
        match position_of(t) {
            Some(k) => prev.insert(k, vstd::utf8::encode_utf8(value_of(t))),
            None => prev,
        }
    }
}

/// What a list of `key=value` tokens amounts to.
pub enum Outcome {
    Malformed(Seq<char>),
    Mixed,
    NamedOnly,
    Positional(Map<usize, Seq<u8>>),
    Empty,
}

pub open spec fn parse_outcome(toks: Seq<Seq<char>>) -> Outcome {
    match first_malformed(toks) {
        Some(i) => Outcome::Malformed(toks[i]),
        None => if has_positional(toks) && has_named(toks) {
            Outcome::Mixed
        } else if has_named(toks) {
            Outcome::NamedOnly
        } else if has_positional(toks) {
            Outcome::Positional(positional_map(toks))
        } else {
            Outcome::Empty
        },
    }
}

/// `r` is the result that stands for the outcome `o`.
pub open spec fn yields(r: Result<Groups, Error>, o: Outcome) -> bool {
    match o {
        Outcome::Malformed(t) => r is Err && r->Err_0 is MalformedGroup && r->Err_0->MalformedGroup_0@
            == t,
        Outcome::Mixed => r == Err::<Groups, Error>(Error::MixedGroups),
        Outcome::NamedOnly => r == Err::<Groups, Error>(Error::NamedUnsupported),
        Outcome::Positional(m) => r is Ok && r->Ok_0 is Pos && replacements(&r->Ok_0->Pos_0) == m,
        Outcome::Empty => r == Err::<Groups, Error>(Error::NoGroups),
    }
}

/// Relies on `str::split_once`: splits `s` at its first `=`.
#[verifier::external_body]
fn split_at_eq<'a>(s: &'a str) -> (r: Option<(&'a str, &'a str)>)
    ensures
        match r {
            None => eq_pos(s@) is None,
            Some(parts) => eq_pos(s@) is Some && parts.0@ == key_of(s@) && parts.1@ == value_of(
                s@,
            ),
        },
{
    s.split_once('=')
}

proof fn lemma_digits_monotone(s: Seq<u8>, k: int)
    requires
        0 <= k <= s.len(),
    ensures
        digits_value(s.subrange(0, k)) <= digits_value(s),
    decreases s.len() - k,
{
    if k < s.len() {
        let t = s.subrange(0, k + 1);
        assert(t.drop_last() =~= s.subrange(0, k));
        lemma_digits_monotone(s, k + 1);
    } else {
        assert(s.subrange(0, k) =~= s);
    }
}

/// Parses a group index written in decimal.
pub fn parse_index(s: &[u8]) -> (r: Option<usize>)
    ensures
        r == index_of_key(s@),
{
    let ghost d = unsigned_digits(s@);
    let mut i: usize = 0;
    if s.len() > 0 && s[0] == 43 {
        i = 1;
    }
    let first = i;
    assert(d =~= s@.subrange(first as int, s@.len() as int));
    if i == s.len() {
        return None;
    }
    let mut v: usize = 0;
    while i < s.len()
        invariant
            first <= i <= s@.len(),
            first < s@.len(),
            d == unsigned_digits(s@),
            d =~= s@.subrange(first as int, s@.len() as int),
            forall|j: int| first <= j < i ==> is_digit(#[trigger] s@[j]),
            v == digits_value(s@.subrange(first as int, i as int)),
        decreases s@.len() - i,
    {
        let ghost pre = s@.subrange(first as int, i + 1);
        assert(pre.drop_last() =~= s@.subrange(first as int, i as int));
        assert(pre.last() == s@[i as int]);
        assert(d[i - first] == s@[i as int]);
        if !(48 <= s[i] && s[i] <= 57) {
            assert(!is_digit(d[i - first]));
            assert(!(forall|j: int| 0 <= j < d.len() ==> is_digit(#[trigger] d[j])));
            return None;
        }
        let digit = (s[i] - 48) as usize;
        let next = match v.checked_mul(10) {
            Some(t) => t.checked_add(digit),
            None => None,
        };
        match next {
            Some(n) => {
                v = n;
            },
            None => {
                proof {
                    assert(digits_value(pre) == v * 10 + digit);
                    lemma_digits_monotone(d, i + 1 - first);
                    assert(d.subrange(0, i + 1 - first) =~= pre);
                }
                return None;
            },
        }
        i += 1;
    }
    assert(s@.subrange(first as int, s@.len() as int) =~= d);
    Some(v)
}

/// Parses `key=value` tokens into the positional replacements they request.
/// Keys are decimal group indices; names are recognised but refused, alone
/// or mixed with indices.
pub fn parse_groups(raw: &[&str]) -> (r: Result<Groups, Error>)
    ensures
        yields(r, parse_outcome(token_views(raw@))),
{
    let ghost toks = token_views(raw@);
    let mut pos: PosGroups = HashMap::new();
    let mut saw_pos = false;
    let mut saw_named = false;
    let mut i: usize = 0;
    while i < raw.len()
        invariant
            i <= raw@.len(),
            toks == token_views(raw@),
            first_malformed(toks.subrange(0, i as int)) is None,
            saw_pos == has_positional(toks.subrange(0, i as int)),
            saw_named == has_named(toks.subrange(0, i as int)),
            replacements(&pos) == positional_map(toks.subrange(0, i as int)),
        decreases raw@.len() - i,
    {
        let ghost pre = toks.subrange(0, i as int);
        let ghost next = toks.subrange(0, i + 1);
        assert(next.drop_last() =~= pre);
        assert(next.last() == raw@[i as int]@);
        let token = raw[i];
        match split_at_eq(token) {
            None => {
                assert(first_malformed(next) == Some(i as int));
                assert(first_malformed(toks) == Some(i as int)) by {
                    lemma_first_malformed_extends(toks, i as int + 1);
                    assert(toks.subrange(0, toks.len() as int) =~= toks);
                }
                return Err(Error::MalformedGroup(token.to_owned()));
            },
            Some((name, value)) => {
                let replace = vstd::slice::slice_to_vec(value.as_bytes());
                let ghost reps0 = replacements(&pos);
                match parse_index(name.as_bytes()) {
                    Some(p) => {
                        pos.insert(p, replace);
                        assert(replacements(&pos) =~= reps0.insert(
                            p,
                            vstd::utf8::encode_utf8(value_of(next.last())),
                        ));
                        assert(position_of(next[i as int]) is Some);
                        saw_pos = true;
                    },
                    None => {
                        assert(position_of(next[i as int]) is None);
                        saw_named = true;
                    },
                }
                assert(has_positional(next) == (has_positional(pre) || position_of(next[i as int]) is Some)) by {
                    if has_positional(next) {
                        let j = choose|j: int| 0 <= j < next.len() && (#[trigger] position_of(next[j])) is Some;
                        if j < i {
                            assert(next[j] == pre[j]);
                        }
                    }
                    if has_positional(pre) {
                        let j = choose|j: int| 0 <= j < pre.len() && (#[trigger] position_of(pre[j])) is Some;
                        assert(next[j] == pre[j]);
                    }
                }
                assert(has_named(next) == (has_named(pre) || position_of(next[i as int]) is None)) by {
                    if has_named(next) {
                        let j = choose|j: int| 0 <= j < next.len() && (#[trigger] position_of(next[j])) is None;
                        if j < i {
                            assert(next[j] == pre[j]);
                        }
                    }
                    if has_named(pre) {
                        let j = choose|j: int| 0 <= j < pre.len() && (#[trigger] position_of(pre[j])) is None;
                        assert(next[j] == pre[j]);
                    }
                }
            },
        }
        i += 1;
    }
    assert(toks.subrange(0, raw@.len() as int) =~= toks);
    if saw_named && saw_pos {
        Err(Error::MixedGroups)
    } else if saw_named {
        Err(Error::NamedUnsupported)
    } else if saw_pos {
        Ok(Groups::Pos(pos))
    } else {
        Err(Error::NoGroups)
    }
}

proof fn lemma_first_malformed_extends(toks: Seq<Seq<char>>, k: int)
    requires
        0 <= k <= toks.len(),
        first_malformed(toks.subrange(0, k)) is Some,
    ensures
        first_malformed(toks) == first_malformed(toks.subrange(0, k)),
    decreases toks.len() - k,
{
    if k < toks.len() {
        let t = toks.subrange(0, k + 1);
        assert(t.drop_last() =~= toks.subrange(0, k));
        lemma_first_malformed_extends(toks, k + 1);
    } else {
        assert(toks.subrange(0, k) =~= toks);
    }
}

/// The token `--` that ends the paths.
pub open spec fn is_separator(t: Seq<char>) -> bool {
    vstd::utf8::encode_utf8(t) == seq![45u8, 45u8]
}

/// Index of the first `--`, or the number of tokens when there is none.
pub open spec fn separator_index(toks: Seq<Seq<char>>) -> int
    decreases toks.len(),
{
    if toks.len() == 0 || is_separator(toks[0]) {
        0
    } else {
        1 + separator_index(toks.drop_first())
    }
}

/// The tokens after the first `--`; none when there is no `--`.
pub open spec fn group_tokens(toks: Seq<Seq<char>>) -> Seq<Seq<char>> {
    let k = separator_index(toks);
    if k < toks.len() {
        toks.subrange(k + 1, toks.len() as int)
    } else {
        Seq::empty()
    }
}

fn is_separator_exec(t: &str) -> (r: bool)
    ensures
        r == is_separator(t@),
{
    let b = t.as_bytes();
    let r = b.len() == 2 && b[0] == 45 && b[1] == 45;
    assert(r ==> b@ =~= seq![45u8, 45u8]);
    r
}

/// Splits the trailing arguments at the first `--` into the paths before it
/// and the groups parsed from the tokens after it.
pub fn parse_trail<'a>(trail: Vec<&'a str>) -> (r: Result<(Vec<&'a str>, Groups), Error>)
    ensures
        yields(
            match r {
                Ok(p) => Ok::<Groups, Error>(p.1),
                Err(e) => Err::<Groups, Error>(e),
            },
            parse_outcome(group_tokens(token_views(trail@))),
        ),
        r is Ok ==> r->Ok_0.0@ == trail@.subrange(0, separator_index(token_views(trail@))),
{
    let ghost toks = token_views(trail@);
    let mut paths: Vec<&'a str> = Vec::new();
    let mut i: usize = 0;
    assert(toks.subrange(0, toks.len() as int) =~= toks);
    while i < trail.len()
        invariant
            i <= trail@.len(),
            toks == token_views(trail@),
            separator_index(toks) == i + separator_index(toks.subrange(i as int, toks.len() as int)),
            paths@ == trail@.subrange(0, i as int),
        ensures
            i <= trail@.len(),
            i < trail@.len() ==> is_separator(toks[i as int]),
            separator_index(toks) == i + separator_index(toks.subrange(i as int, toks.len() as int)),
            paths@ == trail@.subrange(0, i as int),
        decreases trail@.len() - i,
    {
        let ghost tail = toks.subrange(i as int, toks.len() as int);
        assert(tail[0] == trail@[i as int]@);
        if is_separator_exec(trail[i]) {
            break;
        }
        assert(tail.drop_first() =~= toks.subrange(i + 1, toks.len() as int));
        paths.push(trail[i]);
        i += 1;
        assert(paths@ =~= trail@.subrange(0, i as int));
    }
    assert(i == trail@.len() ==> toks.subrange(i as int, toks.len() as int) =~= Seq::<Seq<char>>::empty());
    let start = if i < trail.len() {
        i + 1
    } else {
        i
    };
    assert(separator_index(toks) == i);
    let rest = &trail.as_slice()[start..trail.len()];
    assert(rest@ == trail@.subrange(start as int, trail@.len() as int));
    assert(token_views(rest@) =~= group_tokens(toks));
    match parse_groups(rest) {
        Ok(groups) => Ok((paths, groups)),
        Err(e) => Err(e),
    }
}

} // verus!
