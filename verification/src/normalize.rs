//! Normalizing a token: the surface form that is kept for display and the lowercase key
//! under which it is grouped, or the decision to discard the token.

use crate::text::{alphabetic, chars_of, is_alphabetic, lowercase, lowercase_of, text_from};
use vstd::prelude::*;

verus! {

/// The characters that filtering strips from both ends of a token.
pub open spec fn is_bracket(c: char) -> bool {
    c == '(' || c == ')' || c == '[' || c == ']'
}

/// `s` without the brackets at its start.
pub open spec fn trim_start(s: Seq<char>) -> Seq<char>
    decreases s.len(),
{
    if s.len() > 0 && is_bracket(s[0]) {
        trim_start(s.drop_first())
    } else {
        s
    }
}

/// `s` without the brackets at its end.
pub open spec fn trim_end(s: Seq<char>) -> Seq<char>
    decreases s.len(),
{
    if s.len() > 0 && is_bracket(s.last()) {
        trim_end(s.drop_last())
    } else {
        s
    }
}

/// `s` without the brackets at its start and at its end; those inside stay.
pub open spec fn trimmed(s: Seq<char>) -> Seq<char> {
    trim_end(trim_start(s))
}

/// Every character of `s` is alphabetic.
pub open spec fn all_alphabetic(s: Seq<char>) -> bool {
    forall|i: int| 0 <= i < s.len() ==> alphabetic(#[trigger] s[i])
}

/// The surface form of `token`, or `None` where the token is discarded. Without filtering
/// every token is kept as it is. With filtering a token is trimmed first, and kept if what
/// is left is not empty and wholly alphabetic.
pub open spec fn surface_form(token: Seq<char>, filtering: bool) -> Option<Seq<char>> {
    if !filtering {
        Some(token)
    } else if trimmed(token).len() > 0 && all_alphabetic(trimmed(token)) {
        Some(trimmed(token))
    } else {
        None
    }
}

/// A kept token as the model sees it.
pub struct NormalForm {
    /// The lowercase form of the surface form.
    pub key: Seq<char>,
    /// The token as it is shown, in the case in which it was written.
    pub surface: Seq<char>,
}

/// The normal form of `token`, or `None` where the token is discarded.
pub open spec fn normal_form(token: Seq<char>, filtering: bool) -> Option<NormalForm> {
    match surface_form(token, filtering) {
        Some(surface) => Some(NormalForm { key: lowercase_of(surface), surface }),
        None => None,
    }
}

/// A kept token: the key it is grouped under and the form it is shown in.
pub struct Normalized {
    pub key: String,
    pub surface: String,
}

impl View for Normalized {
    type V = NormalForm;

    open spec fn view(&self) -> NormalForm {
        NormalForm { key: self.key@, surface: self.surface@ }
    }
}

/// Trimming the start drops exactly the brackets that stand before the first other
/// character.
proof fn lemma_trim_start_is(s: Seq<char>, n: int)
    requires
        0 <= n <= s.len(),
        forall|i: int| 0 <= i < n ==> is_bracket(#[trigger] s[i]),
        n < s.len() ==> !is_bracket(s[n]),
    ensures
        trim_start(s) == s.skip(n),
    decreases n,
{
    if n == 0 {
        assert(s.skip(0) =~= s);
    } else {
        let rest = s.drop_first();
        assert(is_bracket(s[0]));
        assert forall|i: int| 0 <= i < n - 1 implies is_bracket(#[trigger] rest[i]) by {
            assert(rest[i] == s[i + 1]);
        }
        lemma_trim_start_is(rest, n - 1);
        assert(rest.skip(n - 1) =~= s.skip(n));
    }
}

/// Trimming the end drops exactly the brackets that stand after the last other character.
proof fn lemma_trim_end_is(s: Seq<char>, n: int)
    requires
        0 <= n <= s.len(),
        forall|i: int| n <= i < s.len() ==> is_bracket(#[trigger] s[i]),
        n > 0 ==> !is_bracket(s[n - 1]),
    ensures
        trim_end(s) == s.take(n),
    decreases s.len() - n,
{
    if n == s.len() {
        assert(s.take(n) =~= s);
    } else {
        let rest = s.drop_last();
        assert(is_bracket(s[s.len() - 1]));
        assert forall|i: int| n <= i < rest.len() implies is_bracket(#[trigger] rest[i]) by {
            assert(rest[i] == s[i]);
        }
        lemma_trim_end_is(rest, n);
        assert(rest.take(n) =~= s.take(n));
    }
}

/// What trimming leaves is a stretch of the token that neither starts nor ends with a
/// bracket.
pub proof fn lemma_trimmed_has_bare_ends(s: Seq<char>)
    ensures
        trimmed(s).len() > 0 ==> !is_bracket(trimmed(s)[0]) && !is_bracket(trimmed(s).last()),
        exists|from: int, to: int|
            0 <= from <= to <= s.len() && trimmed(s) == #[trigger] s.subrange(from, to),
{
    lemma_trim_start_shape(s);
    let u = trim_start(s);
    lemma_trim_end_shape(u);
    let from = s.len() - u.len();
    let to = from + trimmed(s).len();
    assert(trimmed(s) =~= s.subrange(from, to));
}

/// Trimming the start leaves a suffix that does not start with a bracket.
proof fn lemma_trim_start_shape(s: Seq<char>)
    ensures
        trim_start(s).len() <= s.len(),
        trim_start(s) == s.skip(s.len() - trim_start(s).len()),
        trim_start(s).len() > 0 ==> !is_bracket(trim_start(s)[0]),
    decreases s.len(),
{
    if s.len() > 0 && is_bracket(s[0]) {
        let rest = s.drop_first();
        lemma_trim_start_shape(rest);
        assert(rest.skip(rest.len() - trim_start(rest).len()) =~= s.skip(
            s.len() - trim_start(s).len(),
        ));
    } else {
        assert(s.skip(0) =~= s);
    }
}

/// Trimming the end leaves a prefix that does not end with a bracket.
proof fn lemma_trim_end_shape(s: Seq<char>)
    ensures
        trim_end(s).len() <= s.len(),
        trim_end(s) == s.take(trim_end(s).len() as int),
        trim_end(s).len() > 0 ==> !is_bracket(trim_end(s).last()),
    decreases s.len(),
{
    if s.len() > 0 && is_bracket(s.last()) {
        let rest = s.drop_last();
        lemma_trim_end_shape(rest);
        assert(rest.take(trim_end(rest).len() as int) =~= s.take(trim_end(s).len() as int));
    } else {
        assert(s.take(s.len() as int) =~= s);
    }
}

/// Trimming what has been trimmed changes nothing.
pub proof fn lemma_trimmed_is_idempotent(s: Seq<char>)
    ensures
        trimmed(trimmed(s)) == trimmed(s),
{
    lemma_trimmed_has_bare_ends(s);
}

/// Normalizing the surface form of a kept token gives the same normal form again, and so
/// the same key.
pub proof fn lemma_normalize_is_idempotent(token: Seq<char>, filtering: bool)
    requires
        normal_form(token, filtering) is Some,
    ensures
        normal_form(normal_form(token, filtering)->0.surface, filtering) == normal_form(
            token,
            filtering,
        ),
{
    lemma_trimmed_is_idempotent(token);
}

/// A token that filtering keeps is still kept, with the same surface form, once its
/// boundary brackets are gone.
pub proof fn lemma_trimming_keeps_a_kept_token(token: Seq<char>)
    requires
        surface_form(token, true) is Some,
    ensures
        surface_form(trimmed(token), true) == surface_form(token, true),
{
    lemma_trimmed_is_idempotent(token);
}

/// Whether `c` is one of the brackets that filtering strips.
pub fn is_bracket_char(c: char) -> (r: bool)
    ensures
        r == is_bracket(c),
{
    c == '(' || c == ')' || c == '[' || c == ']'
}

/// Where the part of `chars` starts and ends that is left when the brackets at both ends
/// are stripped.
pub fn trimmed_bounds(chars: &Vec<char>) -> (bounds: (usize, usize))
    ensures
        bounds.0 <= bounds.1 <= chars.len(),
        chars@.subrange(bounds.0 as int, bounds.1 as int) == trimmed(chars@),
{
    let mut from: usize = 0;
    while from < chars.len() && is_bracket_char(chars[from])
        invariant
            from <= chars.len(),
            forall|i: int| 0 <= i < from ==> is_bracket(#[trigger] chars@[i]),
        decreases chars.len() - from,
    {
        from += 1;
    }
    let mut to: usize = chars.len();
    while to > from && is_bracket_char(chars[to - 1])
        invariant
            from <= to <= chars.len(),
            forall|i: int| to <= i < chars.len() ==> is_bracket(#[trigger] chars@[i]),
        decreases to,
    {
        to -= 1;
    }
    proof {
        let rest = chars@.skip(from as int);
        lemma_trim_start_is(chars@, from as int);
        assert forall|i: int| to - from <= i < rest.len() implies is_bracket(
            #[trigger] rest[i],
        ) by {
            assert(rest[i] == chars@[i + from]);
        }
        lemma_trim_end_is(rest, to - from);
        assert(rest.take(to - from) =~= chars@.subrange(from as int, to as int));
    }
    (from, to)
}

/// `token` without the brackets at its start and at its end.
pub fn trim_brackets(token: &str) -> (text: String)
    ensures
        text@ == trimmed(token@),
{
    let chars = chars_of(token);
    let (from, to) = trimmed_bounds(&chars);
    text_from(&chars, from, to)
}

/// Normalizes `token`: gives its key and surface form, or `None` where filtering is on and
/// discards it.
pub fn normalize(token: &str, filtering: bool) -> (r: Option<Normalized>)
    ensures
        match r {
            Some(kept) => normal_form(token@, filtering) == Some(kept@),
            None => normal_form(token@, filtering) is None,
        },
{
    if !filtering {
        return Some(Normalized { key: lowercase(token), surface: token.to_owned() });
    }
    let chars = chars_of(token);
    let (from, to) = trimmed_bounds(&chars);
    if from == to {
        return None;
    }
    let ghost kept = chars@.subrange(from as int, to as int);
    let mut i: usize = from;
    while i < to
        invariant
            from <= i <= to <= chars.len(),
            kept == chars@.subrange(from as int, to as int),
            kept == trimmed(token@),
            filtering,
            forall|k: int| 0 <= k < i - from ==> alphabetic(#[trigger] kept[k]),
        decreases to - i,
    {
        if !is_alphabetic(chars[i]) {
            assert(!alphabetic(kept[i - from]));
            return None;
        }
        i += 1;
    }
    let surface = text_from(&chars, from, to);
    Some(Normalized { key: lowercase(surface.as_str()), surface })
}

} // verus!
