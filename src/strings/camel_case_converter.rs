//! Conversion of `snake_case`, `kebab-case` and space separated text to
//! `camelCase`.
use vstd::prelude::*;
use crate::strings::chars::{
    ascii_lower, ascii_upper, is_ascii_upper, is_white_space, is_whitespace, to_ascii_lowercase,
    to_ascii_uppercase,
};

verus! {

/// Underscore, hyphen and white space separate words.
pub open spec fn is_delimiter(c: char) -> bool {
    c == '_' || c == '-' || is_white_space(c)
}

/// The camelCase form of `s`, one input character at a time: a delimiter
/// is dropped; the first kept character is lowercased; a kept character
/// right after a delimiter is uppercased; any other is kept as it is.
pub open spec fn camel_case_of(s: Seq<char>) -> Seq<char>
    decreases s.len(),
{
    if s.len() == 0 {
        seq![]
    } else {
        let prefix = s.drop_last();
        let c = s.last();
        let out = camel_case_of(prefix);
        if is_delimiter(c) {
            out
        } else if out.len() == 0 {
            out.push(ascii_lower(c))
        } else if is_delimiter(prefix.last()) {
            out.push(ascii_upper(c))
        } else {
            out.push(c)
        }
    }
}

/// Converts text in `snake_case`, `kebab-case` or space separated words to
/// `camelCase`.
///
/// Runs of delimiters (`_`, `-`, white space) collapse to one word
/// boundary, leading and trailing delimiters are ignored, the first
/// character of the result is an ASCII lowercase one where it has one, and
/// the character after each boundary is ASCII uppercased. Everything else
/// is passed through unchanged.
pub fn to_camel_case(s: &str) -> (r: String)
    ensures
        r@ == camel_case_of(s@),
        r@.len() > 0 ==> !is_ascii_upper(r@[0]),
{
    let mut result = String::new();
    let mut after_delimiter = false;
    for c in it: s.chars()
        invariant
            it.seq() == s@,
            result@ == camel_case_of(s@.take(it.index() as int)),
            after_delimiter == (it.index() > 0 && is_delimiter(s@[it.index() - 1])),
    {
        let ghost i = it.index() as int;
        assert(s@.take(i + 1).drop_last() =~= s@.take(i));
        assert(s@.take(i + 1).last() == c);
        let delimiter = c == '_' || c == '-' || is_whitespace(c);
        if delimiter {
            after_delimiter = true;
        } else {
            if result.as_str().is_empty() {
                result.push(to_ascii_lowercase(c));
            } else if after_delimiter {
                result.push(to_ascii_uppercase(c));
            } else {
                result.push(c);
            }
            after_delimiter = false;
        }
    }
    assert(s@.take(s@.len() as int) =~= s@);
    proof {
        lemma_camel_case_first_not_upper(s@);
    }
    result
}

/// The first character of a camelCase result is never an ASCII capital
/// letter.
pub proof fn lemma_camel_case_first_not_upper(s: Seq<char>)
    ensures
        camel_case_of(s).len() > 0 ==> !is_ascii_upper(camel_case_of(s)[0]),
    decreases s.len(),
{
    if s.len() > 0 {
        lemma_camel_case_first_not_upper(s.drop_last());
    }
}

/// A camelCase result holds no delimiter.
pub proof fn lemma_camel_case_has_no_delimiter(s: Seq<char>)
    ensures
        forall|i: int| 0 <= i < camel_case_of(s).len() ==> !is_delimiter(#[trigger] camel_case_of(s)[i]),
    decreases s.len(),
{
    if s.len() > 0 {
        let out = camel_case_of(s.drop_last());
        lemma_camel_case_has_no_delimiter(s.drop_last());
        if !is_delimiter(s.last()) {
            lemma_case_keeps_non_delimiter(s.last());
            assert forall|i: int| 0 <= i < camel_case_of(s).len() implies !is_delimiter(
                #[trigger] camel_case_of(s)[i],
            ) by {
                if i < out.len() {
                    assert(camel_case_of(s)[i] == out[i]);
                }
            }
        }
    }
}

proof fn lemma_case_keeps_non_delimiter(c: char)
    requires
        !is_delimiter(c),
    ensures
        !is_delimiter(ascii_lower(c)),
        !is_delimiter(ascii_upper(c)),
{
    if is_ascii_upper(c) {
        assert(ascii_lower(c) as u32 == c as u32 + 32);
    }
    if 'a' <= c <= 'z' {
        assert(ascii_upper(c) as u32 == c as u32 - 32);
    }
}

/// Text without delimiters whose first character is not an ASCII capital
/// letter is already in camelCase.
pub proof fn lemma_camel_case_fixed_point(t: Seq<char>)
    requires
        forall|i: int| 0 <= i < t.len() ==> !is_delimiter(#[trigger] t[i]),
        t.len() > 0 ==> !is_ascii_upper(t[0]),
    ensures
        camel_case_of(t) == t,
    decreases t.len(),
{
    if t.len() > 0 {
        let p = t.drop_last();
        assert forall|i: int| 0 <= i < p.len() implies !is_delimiter(#[trigger] p[i]) by {
            assert(p[i] == t[i]);
        }
        if p.len() > 0 {
            assert(p[0] == t[0]);
        }
        lemma_camel_case_fixed_point(p);
        assert(t.last() == t[t.len() - 1]);
        assert(camel_case_of(t) =~= t);
    }
}

/// Converting to camelCase twice gives the same text as converting once.
pub proof fn lemma_camel_case_idempotent(s: Seq<char>)
    ensures
        camel_case_of(camel_case_of(s)) == camel_case_of(s),
{
    lemma_camel_case_has_no_delimiter(s);
    lemma_camel_case_first_not_upper(s);
    lemma_camel_case_fixed_point(camel_case_of(s));
}

} // verus!
