//! Strings as sequences of characters: conversion, comparison, and the
//! character classes of the grammar.
use super::order::{
    agree_upto, lemma_char_by_code, lemma_lex_asymmetric, lemma_lex_irreflexive, lex_lt, lex_lt_at,
    Ranked,
};
use vstd::prelude::*;
use vstd::std_specs::iter::IteratorSpec;
use vstd::string::*;

verus! {

/// Whether `c` has the Unicode property Alphabetic, as `char::is_alphabetic`
/// reports it.
pub uninterp spec fn alphabetic(c: char) -> bool;

/// Whether `c` is alphabetic or numeric in Unicode's sense, as
/// `char::is_alphanumeric` reports it.
pub uninterp spec fn alphanumeric(c: char) -> bool;

/// `char::is_alphabetic` of std: its answer depends on the character alone
/// and is what [`alphabetic`] names.
pub assume_specification[ char::is_alphabetic ](c: char) -> (r: bool)
    ensures
        r == alphabetic(c),
;

/// `char::is_alphanumeric` of std: its answer depends on the character alone
/// and is what [`alphanumeric`] names.
pub assume_specification[ char::is_alphanumeric ](c: char) -> (r: bool)
    ensures
        r == alphanumeric(c),
;

/// `String::push` of std: appends the character to the end of the string.
pub assume_specification[ String::push ](s: &mut String, c: char)
    ensures
        final(s)@ == old(s)@.push(c),
;

/// The characters of `s`, in order.
pub fn chars_of(s: &str) -> (v: Vec<char>)
    ensures
        v@ == s@,
{
    let mut v: Vec<char> = Vec::new();
    for c in it: s.chars()
        invariant
            v@ == it.seq().subrange(0, it.index() as int),
            it.seq() == s@,
    {
        v.push(c);
    }
    v
}

/// The string made of `chars[from..to]`.
pub fn string_of(chars: &Vec<char>, from: usize, to: usize) -> (s: String)
    requires
        from <= to <= chars.len(),
    ensures
        s@ == chars@.subrange(from as int, to as int),
{
    let mut s = String::new();
    let mut i: usize = from;
    while i < to
        invariant
            from <= i <= to <= chars.len(),
            s@ == chars@.subrange(from as int, i as int),
        decreases to - i,
    {
        s.push(chars[i]);
        i += 1;
        assert(s@ =~= chars@.subrange(from as int, i as int));
    }
    s
}

/// `a` comes before `b` in the order of strings: by character codes, a
/// proper prefix first.
pub fn text_lt(a: &str, b: &str) -> (r: bool)
    ensures
        r == lex_lt(a@, b@),
{
    let mut rest_a = a.chars();
    let mut rest_b = b.chars();
    let ghost mut i: int = 0;
    proof {
        assert(a@.subrange(0, a@.len() as int) =~= a@);
        assert(b@.subrange(0, b@.len() as int) =~= b@);
    }
    loop
        invariant
            agree_upto(a@, b@, i),
            rest_a.remaining() == a@.subrange(i, a@.len() as int),
            rest_b.remaining() == b@.subrange(i, b@.len() as int),
        decreases a@.len() - i,
    {
        let next_a = rest_a.next();
        let next_b = rest_b.next();
        match (next_a, next_b) {
            (Some(ca), Some(cb)) => {
                assert(ca == a@[i] && cb == b@[i]);
                if ca < cb {
                    assert(lex_lt_at(a@, b@, i));
                    return true;
                }
                if cb < ca {
                    proof {
                        lemma_decided_at(b@, a@, i);
                    }
                    return false;
                }
                proof {
                    lemma_char_by_code(ca, cb);
                    assert(a@.subrange(i, a@.len() as int).drop_first() =~= a@.subrange(
                        i + 1,
                        a@.len() as int,
                    ));
                    assert(b@.subrange(i, b@.len() as int).drop_first() =~= b@.subrange(
                        i + 1,
                        b@.len() as int,
                    ));
                    i = i + 1;
                }
            },
            (None, Some(_)) => {
                assert(lex_lt_at(a@, b@, i));
                return true;
            },
            (Some(_), None) => {
                proof {
                    lemma_decided_at(b@, a@, i);
                }
                return false;
            },
            (None, None) => {
                proof {
                    assert(a@ =~= b@);
                    lemma_lex_irreflexive(a@);
                }
                return false;
            },
        }
    }
}

/// Once the order of two sequences is decided at an index, the opposite
/// order does not hold.
pub proof fn lemma_decided_at<T: Ranked>(a: Seq<T>, b: Seq<T>, i: int)
    requires
        lex_lt_at(a, b, i),
    ensures
        lex_lt(a, b),
        !lex_lt(b, a),
        a != b,
{
    lemma_lex_asymmetric(a, b);
}

/// A character that may start a property or node name: alphabetic, or one of
/// `_`, `$`, `#`.
pub open spec fn is_symbol_initial(c: char) -> bool {
    alphabetic(c) || c == '_' || c == '$' || c == '#'
}

/// A character that may continue a property or node name: alphanumeric, or
/// one of `_`, `$`, `-`, `.`, `,`.
pub open spec fn is_symbol_char(c: char) -> bool {
    alphanumeric(c) || c == '_' || c == '$' || c == '-' || c == '.' || c == ','
}

/// A character that may start a label or an identifier: alphabetic, `_` or
/// `$`.
pub open spec fn is_ident_initial(c: char) -> bool {
    alphabetic(c) || c == '_' || c == '$'
}

/// A character that may continue a label or an identifier: alphanumeric, `_`
/// or `$`.
pub open spec fn is_ident_char(c: char) -> bool {
    alphanumeric(c) || c == '_' || c == '$'
}

/// Whether `c` may start a property or node name.
pub fn symbol_initial_char(c: char) -> (r: bool)
    ensures
        r == is_symbol_initial(c),
{
    c.is_alphabetic() || c == '_' || c == '$' || c == '#'
}

/// Whether `c` may continue a property or node name.
pub fn symbol_char(c: char) -> (r: bool)
    ensures
        r == is_symbol_char(c),
{
    c.is_alphanumeric() || c == '_' || c == '$' || c == '-' || c == '.' || c == ','
}

/// Whether `c` may start a label or an identifier.
pub fn ident_initial_char(c: char) -> (r: bool)
    ensures
        r == is_ident_initial(c),
{
    c.is_alphabetic() || c == '_' || c == '$'
}

/// Whether `c` may continue a label or an identifier.
pub fn ident_char(c: char) -> (r: bool)
    ensures
        r == is_ident_char(c),
{
    c.is_alphanumeric() || c == '_' || c == '$'
}

} // verus!
