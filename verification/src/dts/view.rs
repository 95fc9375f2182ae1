//! Mathematical models of the device-tree data types.
//!
//! Contracts throughout the crate are stated over these: a symbol is a
//! sequence of characters, a path a sequence of names, a node a record of
//! sequences.
use super::order::{lemma_lex_irreflexive, lemma_lex_total, lemma_lex_transitive, lex_lt, Ranked};
use vstd::prelude::*;

verus! {

/// What a view of every item of a sequence gives.
pub open spec fn view_all<T: View>(items: Seq<T>) -> Seq<T::V> {
    Seq::new(items.len(), |i: int| items[i]@)
}

/// Model of a node name.
pub ghost enum NameView {
    /// A plain name with an optional unit address; the empty name without an
    /// address is the root.
    Plain(Seq<char>, Option<u64>),
    /// `&label` standing where a name is expected.
    Reference(Seq<char>),
}

/// Model of a path: its segments, first to last.
pub type PathView = Seq<NameView>;

/// Model of a property value.
pub ghost enum ValueView {
    Symbol(Seq<char>),
    Reference(Seq<char>),
    Address(u64),
    Text(Seq<char>),
    Array(Seq<ValueView>),
    Expr(Seq<Seq<char>>),
}

/// Model of a property: a name and its values in source order.
pub ghost struct PropView {
    pub name: Seq<char>,
    pub value: Seq<ValueView>,
}

/// Model of a node: labels, name, properties and child nodes, each in source
/// order.
pub ghost struct NodeView {
    pub labels: Seq<Seq<char>>,
    pub name: NameView,
    pub props: Seq<PropView>,
    pub nodes: Seq<NodeView>,
}

/// The name of the root: empty, without an address.
pub open spec fn root_name() -> NameView {
    NameView::Plain(Seq::empty(), None)
}

impl NameView {
    /// The name is the root's.
    pub open spec fn is_root(self) -> bool {
        self == root_name()
    }

    /// The name is a label reference.
    pub open spec fn is_reference(self) -> bool {
        self is Reference
    }

    /// A name that starts a path anew wherever it occurs: the root or a
    /// reference.
    pub open spec fn is_anchor(self) -> bool {
        self.is_root() || self.is_reference()
    }
}

/// Order of unit addresses: a missing address comes first, then by number.
pub open spec fn address_below(a: Option<u64>, b: Option<u64>) -> bool {
    match (a, b) {
        (None, Some(_)) => true,
        (Some(x), Some(y)) => x < y,
        _ => false,
    }
}

impl Ranked for NameView {
    /// Plain names come before references; plain names go by name, then by
    /// address; references go by label.
    open spec fn below(self, other: Self) -> bool {
        match (self, other) {
            (NameView::Plain(s1, a1), NameView::Plain(s2, a2)) => lex_lt(s1, s2) || (s1 == s2
                && address_below(a1, a2)),
            (NameView::Plain(_, _), NameView::Reference(_)) => true,
            (NameView::Reference(_), NameView::Plain(_, _)) => false,
            (NameView::Reference(r1), NameView::Reference(r2)) => lex_lt(r1, r2),
        }
    }

    proof fn below_irreflexive(a: Self) {
        match a {
            NameView::Plain(s, _) => lemma_lex_irreflexive(s),
            NameView::Reference(r) => lemma_lex_irreflexive(r),
        }
    }

    proof fn below_transitive(a: Self, b: Self, c: Self) {
        match (a, b, c) {
            (NameView::Plain(s1, _), NameView::Plain(s2, _), NameView::Plain(s3, _)) => {
                if lex_lt(s1, s2) && lex_lt(s2, s3) {
                    lemma_lex_transitive(s1, s2, s3);
                }
            },
            (NameView::Reference(r1), NameView::Reference(r2), NameView::Reference(r3)) => {
                lemma_lex_transitive(r1, r2, r3);
            },
            _ => {},
        }
    }

    proof fn below_total(a: Self, b: Self) {
        match (a, b) {
            (NameView::Plain(s1, _), NameView::Plain(s2, _)) => lemma_lex_total(s1, s2),
            (NameView::Reference(r1), NameView::Reference(r2)) => lemma_lex_total(r1, r2),
            _ => {},
        }
    }
}

/// The path that holds the root alone.
pub open spec fn root_path() -> PathView {
    seq![root_name()]
}

/// The path that holds one reference to `label`.
pub open spec fn reference_path(label: Seq<char>) -> PathView {
    seq![NameView::Reference(label)]
}

/// `base` followed by the names of `rel`, where a root or a reference among
/// them drops everything before it: the result ends with the last name of
/// `rel`, and stands alone from the last anchor on.
pub open spec fn join(base: PathView, rel: Seq<NameView>) -> PathView
    decreases rel.len(),
{
    if rel.len() == 0 {
        base
    } else if rel.last().is_anchor() {
        seq![rel.last()]
    } else {
        join(base, rel.drop_last()).push(rel.last())
    }
}

/// The path's first segment is a reference, so the path is not resolved.
pub open spec fn is_reference_rooted(path: PathView) -> bool {
    path.len() > 0 && path[0].is_reference()
}

/// The path is exactly the root.
pub open spec fn is_root_path(path: PathView) -> bool {
    path.len() == 1 && path[0].is_root()
}

/// The path without its last segment; a path of one segment or none is its
/// own parent.
pub open spec fn parent(path: PathView) -> PathView {
    if path.len() > 1 {
        path.drop_last()
    } else {
        path
    }
}

/// Joining names of which none is an anchor appends them.
pub proof fn lemma_join_plain(base: PathView, rel: Seq<NameView>)
    requires
        forall|i: int| 0 <= i < rel.len() ==> !rel[i].is_anchor(),
    ensures
        join(base, rel) == base + rel,
    decreases rel.len(),
{
    if rel.len() > 0 {
        lemma_join_plain(base, rel.drop_last());
        assert(base + rel =~= (base + rel.drop_last()).push(rel.last()));
    } else {
        assert(base + rel =~= base);
    }
}

/// The path starts at an anchor and holds no other: what every path is
/// that was made by joining names to the root or to a reference.
pub open spec fn anchored(path: PathView) -> bool {
    &&& path.len() > 0
    &&& path[0].is_anchor()
    &&& forall|i: int| 1 <= i < path.len() ==> !(#[trigger] path[i]).is_anchor()
}

/// Joining names to an anchored path gives an anchored path.
pub proof fn lemma_join_anchored(base: PathView, rel: Seq<NameView>)
    requires
        anchored(base),
    ensures
        anchored(join(base, rel)),
    decreases rel.len(),
{
    if rel.len() > 0 && !rel.last().is_anchor() {
        lemma_join_anchored(base, rel.drop_last());
    }
}

} // verus!
