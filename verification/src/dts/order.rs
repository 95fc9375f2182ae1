//! Lexicographic order on sequences, as used to sort symbols and paths.
use vstd::prelude::*;

verus! {

/// A type whose values are ranked by a strict total order.
pub trait Ranked: Sized {
    /// `self` comes strictly before `other`.
    spec fn below(self, other: Self) -> bool;

    /// Nothing comes before itself.
    proof fn below_irreflexive(a: Self)
        ensures
            !a.below(a),
    ;

    /// The order is transitive.
    proof fn below_transitive(a: Self, b: Self, c: Self)
        requires
            a.below(b),
            b.below(c),
        ensures
            a.below(c),
    ;

    /// Any two distinct values are ordered one way or the other.
    proof fn below_total(a: Self, b: Self)
        ensures
            a.below(b) || b.below(a) || a == b,
    ;
}

/// Characters with the same code are the same character.
pub proof fn lemma_char_by_code(a: char, b: char)
    ensures
        a as int == b as int ==> a == b,
{
}

impl Ranked for char {
    open spec fn below(self, other: Self) -> bool {
        (self as int) < (other as int)
    }

    proof fn below_irreflexive(a: Self) {
    }

    proof fn below_transitive(a: Self, b: Self, c: Self) {
    }

    proof fn below_total(a: Self, b: Self) {
        lemma_char_by_code(a, b);
    }
}

/// `a` and `b` agree on their first `i` items.
pub open spec fn agree_upto<T>(a: Seq<T>, b: Seq<T>, i: int) -> bool {
    &&& 0 <= i <= a.len()
    &&& i <= b.len()
    &&& forall|j: int| 0 <= j < i ==> a[j] == b[j]
}

/// `a` comes before `b`, and index `i` is where that is decided: the two agree
/// before `i`, and there `a` ends while `b` goes on, or `a` holds the lesser item.
pub open spec fn lex_lt_at<T: Ranked>(a: Seq<T>, b: Seq<T>, i: int) -> bool {
    &&& agree_upto(a, b, i)
    &&& i < b.len()
    &&& i < a.len() ==> a[i].below(b[i])
}

/// Strict lexicographic order: a proper prefix comes first, otherwise the first
/// differing item decides.
pub open spec fn lex_lt<T: Ranked>(a: Seq<T>, b: Seq<T>) -> bool {
    exists|i: int| lex_lt_at(a, b, i)
}

/// `a` is a prefix of `b`, possibly all of it.
pub open spec fn is_prefix<T>(a: Seq<T>, b: Seq<T>) -> bool {
    agree_upto(a, b, a.len() as int)
}

/// `a` is a prefix of `b` and shorter than it.
pub open spec fn is_proper_prefix<T>(a: Seq<T>, b: Seq<T>) -> bool {
    is_prefix(a, b) && a.len() < b.len()
}

/// No sequence comes before itself.
pub proof fn lemma_lex_irreflexive<T: Ranked>(a: Seq<T>)
    ensures
        !lex_lt(a, a),
{
    if lex_lt(a, a) {
        let i = choose|i: int| lex_lt_at(a, a, i);
        T::below_irreflexive(a[i]);
    }
}

/// The lexicographic order is transitive.
pub proof fn lemma_lex_transitive<T: Ranked>(a: Seq<T>, b: Seq<T>, c: Seq<T>)
    requires
        lex_lt(a, b),
        lex_lt(b, c),
    ensures
        lex_lt(a, c),
{
    let i = choose|i: int| lex_lt_at(a, b, i);
    let j = choose|j: int| lex_lt_at(b, c, j);
    if i < j {
        assert(lex_lt_at(a, c, i));
    } else if j < i {
        assert(lex_lt_at(a, c, j));
    } else {
        if i < a.len() {
            T::below_transitive(a[i], b[i], c[i]);
        }
        assert(lex_lt_at(a, c, i));
    }
}

/// Two sequences are equal, or one comes before the other.
pub proof fn lemma_lex_total<T: Ranked>(a: Seq<T>, b: Seq<T>)
    ensures
        lex_lt(a, b) || lex_lt(b, a) || a == b,
{
    lemma_lex_total_from(a, b, 0);
}

proof fn lemma_lex_total_from<T: Ranked>(a: Seq<T>, b: Seq<T>, i: int)
    requires
        agree_upto(a, b, i),
    ensures
        lex_lt(a, b) || lex_lt(b, a) || a == b,
    decreases a.len() - i,
{
    if i == a.len() {
        if i == b.len() {
            assert(a =~= b);
        } else {
            assert(lex_lt_at(a, b, i));
        }
    } else if i == b.len() {
        assert(lex_lt_at(b, a, i));
    } else {
        T::below_total(a[i], b[i]);
        if a[i].below(b[i]) {
            assert(lex_lt_at(a, b, i));
        } else if b[i].below(a[i]) {
            assert(lex_lt_at(b, a, i));
        } else {
            lemma_lex_total_from(a, b, i + 1);
        }
    }
}

/// The order is asymmetric.
pub proof fn lemma_lex_asymmetric<T: Ranked>(a: Seq<T>, b: Seq<T>)
    requires
        lex_lt(a, b),
    ensures
        !lex_lt(b, a),
        a != b,
{
    if lex_lt(b, a) {
        lemma_lex_transitive(a, b, a);
    }
    lemma_lex_irreflexive(a);
}

/// A sequence comes after each of its proper prefixes.
pub proof fn lemma_proper_prefix_is_less<T: Ranked>(a: Seq<T>, b: Seq<T>)
    requires
        is_proper_prefix(a, b),
    ensures
        lex_lt(a, b),
{
    assert(lex_lt_at(a, b, a.len() as int));
}

/// Whatever lies between a sequence and one of its extensions is itself an
/// extension of that sequence.
pub proof fn lemma_between_extends<T: Ranked>(p: Seq<T>, m: Seq<T>, d: Seq<T>)
    requires
        is_proper_prefix(p, d),
        lex_lt(p, m),
        lex_lt(m, d),
    ensures
        is_proper_prefix(p, m),
{
    let i = choose|i: int| lex_lt_at(p, m, i);
    let j = choose|j: int| lex_lt_at(m, d, j);
    if i < p.len() {
        // p[i] is below m[i], yet d[i] == p[i] and m is below d.
        if j < i {
            assert(p[j] == m[j]);
            assert(p[j] == d[j]);
            if j < m.len() {
                T::below_irreflexive(m[j]);
            }
        } else if j == i {
            T::below_transitive(p[i], m[i], d[i]);
            T::below_irreflexive(p[i]);
        } else {
            assert(m[i] == d[i]);
            T::below_irreflexive(p[i]);
        }
    }
}

} // verus!
