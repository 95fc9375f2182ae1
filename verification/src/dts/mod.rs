//! Device-tree source: the data model, with the grammar, the parser, the
//! analysis and its views in the modules below.
pub mod analysis;
pub mod bounds;
pub mod closure;
pub mod laws;
pub mod lexer;
pub mod order;
pub mod parser;
pub mod render;
pub mod report;
pub mod resolve;
pub mod syntax;
pub mod table;
pub mod text;
pub mod view;

use order::{agree_upto, lemma_lex_irreflexive, lex_lt, lex_lt_at, Ranked};
use table::Key;
use text::{lemma_decided_at, text_lt};
use view::{
    anchored, is_reference_rooted, is_root_path, join, lemma_join_anchored, parent,
    reference_path, root_name, root_path, view_all, NameView, NodeView, PathView, PropView,
    ValueView,
};
use vstd::prelude::*;

verus! {

/// A name, compared by its characters.
#[derive(Debug, PartialEq, Eq, PartialOrd, Ord)]
pub struct Symbol(pub String);

/// An unsigned 64-bit address, printed in hexadecimal.
#[derive(Debug, PartialEq, Eq, PartialOrd, Ord)]
pub struct Address(pub u64);

/// The name of a node: a plain name with an optional unit address (the
/// empty name without address is the root), or a reference to a label.
#[derive(Debug, PartialEq, Eq, PartialOrd, Ord)]
pub enum NodeName {
    Symbol(Symbol, Option<Address>),
    Reference(Symbol),
}

/// A property value.
#[derive(Debug, PartialEq)]
pub enum Value {
    Symbol(Symbol),
    Reference(Symbol),
    Address(Address),
    Text(String),
    Array(Vec<Value>),
    Expr(Vec<Symbol>),
}

/// A property: a name and its values; no value makes it a flag.
#[derive(Debug, PartialEq)]
pub struct Prop {
    pub name: Symbol,
    pub value: Vec<Value>,
}

/// A node with its labels, properties and child nodes.
#[derive(Debug)]
pub struct Node {
    pub labels: Vec<Symbol>,
    pub name: NodeName,
    pub props: Vec<Prop>,
    pub nodes: Vec<Node>,
}

/// The segments that lead to a node.
#[derive(Debug, PartialEq, Eq, PartialOrd, Ord)]
pub struct Path(Vec<NodeName>);

impl View for Symbol {
    type V = Seq<char>;

    open spec fn view(&self) -> Seq<char> {
        self.0@
    }
}

impl View for Address {
    type V = u64;

    open spec fn view(&self) -> u64 {
        self.0
    }
}

/// The number that an optional address holds, if any.
pub open spec fn address_view(a: Option<Address>) -> Option<u64> {
    match a {
        Some(a) => Some(a.0),
        None => None,
    }
}

impl View for NodeName {
    type V = NameView;

    open spec fn view(&self) -> NameView {
        match self {
            NodeName::Symbol(s, a) => NameView::Plain(s@, address_view(*a)),
            NodeName::Reference(s) => NameView::Reference(s@),
        }
    }
}

/// The model of a value: each item of an array is taken by its own model.
pub open spec fn value_view(value: Value) -> ValueView
    decreases value,
{
    match value {
        Value::Symbol(s) => ValueView::Symbol(s@),
        Value::Reference(s) => ValueView::Reference(s@),
        Value::Address(a) => ValueView::Address(a@),
        Value::Text(t) => ValueView::Text(t@),
        Value::Array(a) => ValueView::Array(
            Seq::new(
                a@.len(),
                |i: int|
                    if 0 <= i < a@.len() {
                        value_view(a@[i])
                    } else {
                        arbitrary()
                    },
            ),
        ),
        Value::Expr(e) => ValueView::Expr(view_all(e@)),
    }
}

impl View for Value {
    type V = ValueView;

    open spec fn view(&self) -> ValueView {
        value_view(*self)
    }
}

impl View for Prop {
    type V = PropView;

    open spec fn view(&self) -> PropView {
        PropView { name: self.name@, value: view_all(self.value@) }
    }
}

/// The model of a node: each child is taken by its own model.
pub open spec fn node_view(node: Node) -> NodeView
    decreases node,
{
    NodeView {
        labels: view_all(node.labels@),
        name: node.name@,
        props: view_all(node.props@),
        nodes: Seq::new(
            node.nodes@.len(),
            |i: int|
                if 0 <= i < node.nodes@.len() {
                    node_view(node.nodes@[i])
                } else {
                    arbitrary()
                },
        ),
    }
}

impl View for Node {
    type V = NodeView;

    open spec fn view(&self) -> NodeView {
        node_view(*self)
    }
}

impl View for Path {
    type V = PathView;

    closed spec fn view(&self) -> PathView {
        view_all(self.0@)
    }
}

/// The view of an array value holds the views of its items.
pub proof fn lemma_array_view(items: Vec<Value>)
    ensures
        Value::Array(items)@ == ValueView::Array(view_all(items@)),
{
    assert(Value::Array(items)@->Array_0 =~= view_all(items@));
}

/// The view of a node holds the views of its children.
pub proof fn lemma_node_view(node: Node)
    ensures
        node@.nodes == view_all(node.nodes@),
        node@.labels == view_all(node.labels@),
        node@.props == view_all(node.props@),
        node@.name == node.name@,
{
    assert(node@.nodes =~= view_all(node.nodes@));
}

impl Clone for Symbol {
    fn clone(&self) -> (r: Self)
        ensures
            r@ == self@,
    {
        Symbol(self.0.clone())
    }
}

impl Clone for Address {
    fn clone(&self) -> (r: Self)
        ensures
            r@ == self@,
    {
        Address(self.0)
    }
}

impl Clone for NodeName {
    fn clone(&self) -> (r: Self)
        ensures
            r@ == self@,
    {
        match self {
            NodeName::Symbol(s, None) => NodeName::Symbol(s.clone(), None),
            NodeName::Symbol(s, Some(a)) => NodeName::Symbol(s.clone(), Some(Address(a.0))),
            NodeName::Reference(s) => NodeName::Reference(s.clone()),
        }
    }
}

/// A copy of each symbol, in order.
pub fn clone_symbols(items: &Vec<Symbol>) -> (r: Vec<Symbol>)
    ensures
        view_all(r@) == view_all(items@),
{
    let mut out: Vec<Symbol> = Vec::new();
    let mut i: usize = 0;
    while i < items.len()
        invariant
            i <= items.len(),
            out@.len() == i,
            forall|j: int| 0 <= j < i ==> out@[j]@ == items@[j]@,
        decreases items.len() - i,
    {
        out.push(items[i].clone());
        i += 1;
    }
    assert(view_all(out@) =~= view_all(items@));
    out
}

/// A copy of each value, in order.
pub fn clone_values(items: &Vec<Value>) -> (r: Vec<Value>)
    ensures
        view_all(r@) == view_all(items@),
    decreases items,
{
    let mut out: Vec<Value> = Vec::new();
    let mut i: usize = 0;
    while i < items.len()
        invariant
            i <= items.len(),
            out@.len() == i,
            forall|j: int| 0 <= j < i ==> out@[j]@ == items@[j]@,
        decreases items.len() - i,
    {
        out.push(items[i].clone());
        i += 1;
    }
    assert(view_all(out@) =~= view_all(items@));
    out
}

impl Clone for Value {
    fn clone(&self) -> (r: Self)
        ensures
            r@ == self@,
        decreases self,
    {
        match self {
            Value::Symbol(s) => Value::Symbol(s.clone()),
            Value::Reference(s) => Value::Reference(s.clone()),
            Value::Address(a) => Value::Address(Address(a.0)),
            Value::Text(t) => Value::Text(t.clone()),
            Value::Array(a) => {
                let copy = clone_values(a);
                proof {
                    lemma_array_view(copy);
                    lemma_array_view(*a);
                }
                Value::Array(copy)
            },
            Value::Expr(e) => Value::Expr(clone_symbols(e)),
        }
    }
}

impl Clone for Prop {
    fn clone(&self) -> (r: Self)
        ensures
            r@ == self@,
    {
        Prop { name: self.name.clone(), value: clone_values(&self.value) }
    }
}

/// A copy of each property, in order.
pub fn clone_props(items: &Vec<Prop>) -> (r: Vec<Prop>)
    ensures
        view_all(r@) == view_all(items@),
{
    let mut out: Vec<Prop> = Vec::new();
    let mut i: usize = 0;
    while i < items.len()
        invariant
            i <= items.len(),
            out@.len() == i,
            forall|j: int| 0 <= j < i ==> out@[j]@ == items@[j]@,
        decreases items.len() - i,
    {
        out.push(items[i].clone());
        i += 1;
    }
    assert(view_all(out@) =~= view_all(items@));
    out
}

/// A copy of each node with all below it, in order.
pub fn clone_nodes(items: &Vec<Node>) -> (r: Vec<Node>)
    ensures
        view_all(r@) == view_all(items@),
    decreases items,
{
    let mut out: Vec<Node> = Vec::new();
    let mut i: usize = 0;
    while i < items.len()
        invariant
            i <= items.len(),
            out@.len() == i,
            forall|j: int| 0 <= j < i ==> out@[j]@ == items@[j]@,
        decreases items.len() - i,
    {
        out.push(items[i].clone());
        i += 1;
    }
    assert(view_all(out@) =~= view_all(items@));
    out
}

impl Clone for Node {
    fn clone(&self) -> (r: Self)
        ensures
            r@ == self@,
        decreases self,
    {
        let r = Node {
            labels: clone_symbols(&self.labels),
            name: self.name.clone(),
            props: clone_props(&self.props),
            nodes: clone_nodes(&self.nodes),
        };
        proof {
            lemma_node_view(r);
            lemma_node_view(*self);
        }
        r
    }
}

/// A copy of each name, in order.
pub fn clone_names(items: &Vec<NodeName>) -> (r: Vec<NodeName>)
    ensures
        view_all(r@) == view_all(items@),
{
    let mut out: Vec<NodeName> = Vec::new();
    let mut i: usize = 0;
    while i < items.len()
        invariant
            i <= items.len(),
            out@.len() == i,
            forall|j: int| 0 <= j < i ==> out@[j]@ == items@[j]@,
        decreases items.len() - i,
    {
        out.push(items[i].clone());
        i += 1;
    }
    assert(view_all(out@) =~= view_all(items@));
    out
}

impl Clone for Path {
    fn clone(&self) -> (r: Self)
        ensures
            r@ == self@,
    {
        proof {
            use_type_invariant(self);
        }
        Path(clone_names(&self.0))
    }
}

impl Symbol {
    /// The two symbols hold the same characters.
    pub fn same(&self, other: &Symbol) -> (r: bool)
        ensures
            r == (self@ == other@),
    {
        self.0 == other.0
    }

    /// `self` sorts before `other`.
    pub fn before(&self, other: &Symbol) -> (r: bool)
        ensures
            r == lex_lt(self@, other@),
    {
        text_lt(self.0.as_str(), other.0.as_str())
    }
}

impl NodeName {
    /// The name of the root: empty and without an address.
    pub fn is_root(&self) -> (r: bool)
        ensures
            r == self@.is_root(),
    {
        match self {
            NodeName::Symbol(s, None) => {
                let r = s.0.as_str().is_empty();
                proof {
                    if r {
                        assert(s@ =~= Seq::<char>::empty());
                    }
                }
                r
            },
            _ => false,
        }
    }

    /// The name is a reference to a label.
    pub fn is_reference(&self) -> (r: bool)
        ensures
            r == self@.is_reference(),
    {
        match self {
            NodeName::Reference(_) => true,
            _ => false,
        }
    }

    /// The two names are the same.
    pub fn same(&self, other: &NodeName) -> (r: bool)
        ensures
            r == (self@ == other@),
    {
        match (self, other) {
            (NodeName::Symbol(s1, a1), NodeName::Symbol(s2, a2)) => {
                let same_address = match (a1, a2) {
                    (None, None) => true,
                    (Some(x), Some(y)) => x.0 == y.0,
                    _ => false,
                };
                s1.same(s2) && same_address
            },
            (NodeName::Reference(r1), NodeName::Reference(r2)) => r1.same(r2),
            _ => false,
        }
    }

    /// `self` sorts before `other`: plain names first, by name and then by
    /// address, a missing address first; references after them, by label.
    pub fn before(&self, other: &NodeName) -> (r: bool)
        ensures
            r == Ranked::below(self@, other@),
    {
        match (self, other) {
            (NodeName::Symbol(s1, a1), NodeName::Symbol(s2, a2)) => {
                if s1.before(s2) {
                    true
                } else if s1.same(s2) {
                    match (a1, a2) {
                        (None, Some(_)) => true,
                        (Some(x), Some(y)) => x.0 < y.0,
                        _ => false,
                    }
                } else {
                    false
                }
            },
            (NodeName::Symbol(_, _), NodeName::Reference(_)) => true,
            (NodeName::Reference(_), NodeName::Symbol(_, _)) => false,
            (NodeName::Reference(r1), NodeName::Reference(r2)) => r1.before(r2),
        }
    }
}

/// What splitting a path gives: its first segment and the rest, where an
/// empty path stands for the root.
pub open spec fn split_path(path: PathView) -> (NameView, Seq<NameView>) {
    if path.len() == 0 {
        (root_name(), Seq::empty())
    } else {
        (path[0], path.subrange(1, path.len() as int))
    }
}

impl Path {
    /// Every path starts at the root or at a reference and holds no other
    /// such name: joining starts anew at each of them.
    #[verifier::type_invariant]
    spec fn starts_at_anchor(&self) -> bool {
        anchored(view_all(self.0@))
    }

    /// Makes known that the path is anchored, as every path is.
    pub fn anchor(&self)
        ensures
            anchored(self@),
    {
        proof {
            use_type_invariant(self);
        }
    }

    /// The path of the root node.
    pub fn root() -> (r: Path)
        ensures
            r@ == root_path(),
    {
        let mut names: Vec<NodeName> = Vec::new();
        names.push(NodeName::Symbol(Symbol(String::new()), None));
        assert(view_all(names@) =~= root_path());
        Path(names)
    }

    /// The path that holds one reference to `label`.
    pub fn reference(label: &Symbol) -> (r: Path)
        ensures
            r@ == reference_path(label@),
    {
        let mut names: Vec<NodeName> = Vec::new();
        names.push(NodeName::Reference(label.clone()));
        assert(view_all(names@) =~= reference_path(label@));
        Path(names)
    }

    /// The path extended by the names of `relpath`, of which a root or a
    /// reference starts the path anew.
    pub fn join(self, relpath: Vec<NodeName>) -> (r: Path)
        ensures
            r@ == join(self@, view_all(relpath@)),
    {
        let ghost base = self@;
        let ghost rel = view_all(relpath@);
        proof {
            use_type_invariant(&self);
        }
        let mut names = self.0;
        let mut i: usize = 0;
        proof {
            assert(rel.subrange(0, 0) =~= Seq::<NameView>::empty());
        }
        while i < relpath.len()
            invariant
                i <= relpath.len(),
                rel == view_all(relpath@),
                view_all(names@) == join(base, rel.subrange(0, i as int)),
            decreases relpath.len() - i,
        {
            let name = relpath[i].clone();
            proof {
                let upto = rel.subrange(0, i + 1);
                assert(upto.last() == name@);
                assert(upto.drop_last() =~= rel.subrange(0, i as int));
            }
            if name.is_reference() || name.is_root() {
                names = Vec::new();
                names.push(name);
                assert(view_all(names@) =~= seq![name@]);
            } else {
                let ghost before = view_all(names@);
                names.push(name);
                assert(view_all(names@) =~= before.push(name@));
            }
            i += 1;
        }
        proof {
            assert(rel.subrange(0, i as int) =~= rel);
            lemma_join_anchored(base, rel);
        }
        Path(names)
    }

    /// The path is exactly the root.
    pub fn is_root(&self) -> (r: bool)
        ensures
            r == is_root_path(self@),
    {
        self.0.len() == 1 && self.0[0].is_root()
    }

    /// The path starts at a reference: it is not resolved.
    pub fn is_reference(&self) -> (r: bool)
        ensures
            r == is_reference_rooted(self@),
    {
        self.0.len() > 0 && self.0[0].is_reference()
    }

    /// The number of segments.
    pub fn len(&self) -> (n: usize)
        ensures
            n == self@.len(),
    {
        self.0.len()
    }

    /// The first segment and the rest; an empty path splits as the root.
    pub fn split(&self) -> (r: (NodeName, Vec<NodeName>))
        ensures
            r.0@ == split_path(self@).0,
            view_all(r.1@) == split_path(self@).1,
    {
        if self.0.len() == 0 {
            let rest: Vec<NodeName> = Vec::new();
            assert(view_all(rest@) =~= Seq::<NameView>::empty());
            (NodeName::Symbol(Symbol(String::new()), None), rest)
        } else {
            let first = self.0[0].clone();
            let mut rest: Vec<NodeName> = Vec::new();
            let mut i: usize = 1;
            while i < self.0.len()
                invariant
                    1 <= i <= self.0.len(),
                    rest@.len() == i - 1,
                    forall|j: int| 0 <= j < i - 1 ==> rest@[j]@ == self.0@[j + 1]@,
                decreases self.0.len() - i,
            {
                rest.push(self.0[i].clone());
                i += 1;
            }
            assert(view_all(rest@) =~= self@.subrange(1, self@.len() as int));
            (first, rest)
        }
    }

    /// The path without its last segment; a path of one segment is its own
    /// parent.
    pub fn parent(&self) -> (r: Path)
        ensures
            r@ == parent(self@),
    {
        proof {
            use_type_invariant(self);
        }
        let mut names = clone_names(&self.0);
        if names.len() > 1 {
            names.pop();
            assert(view_all(names@) =~= self@.drop_last());
        }
        Path(names)
    }

    /// The two paths hold the same segments.
    pub fn same(&self, other: &Path) -> (r: bool)
        ensures
            r == (self@ == other@),
    {
        if self.0.len() != other.0.len() {
            assert(self@.len() != other@.len());
            return false;
        }
        let mut i: usize = 0;
        while i < self.0.len()
            invariant
                self.0.len() == other.0.len(),
                agree_upto(self@, other@, i as int),
            decreases self.0.len() - i,
        {
            if !self.0[i].same(&other.0[i]) {
                assert(self@[i as int] != other@[i as int]);
                return false;
            }
            i += 1;
        }
        assert(self@ =~= other@);
        true
    }

    /// `self` sorts before `other`: segment by segment, a proper prefix
    /// first.
    pub fn before(&self, other: &Path) -> (r: bool)
        ensures
            r == lex_lt(self@, other@),
    {
        let mut i: usize = 0;
        while i < self.0.len() && i < other.0.len()
            invariant
                agree_upto(self@, other@, i as int),
            decreases self.0.len() - i,
        {
            if self.0[i].before(&other.0[i]) {
                assert(lex_lt_at(self@, other@, i as int));
                return true;
            }
            if !self.0[i].same(&other.0[i]) {
                proof {
                    Ranked::below_total(self@[i as int], other@[i as int]);
                    lemma_decided_at(other@, self@, i as int);
                }
                return false;
            }
            i += 1;
        }
        if i < other.0.len() {
            assert(lex_lt_at(self@, other@, i as int));
            true
        } else {
            proof {
                if i < self.0.len() {
                    lemma_decided_at(other@, self@, i as int);
                } else {
                    assert(self@ =~= other@);
                    lemma_lex_irreflexive(self@);
                }
            }
            false
        }
    }

    /// The segment at index `i`.
    pub fn segment(&self, i: usize) -> (name: &NodeName)
        requires
            i < self@.len(),
        ensures
            name@ == self@[i as int],
    {
        &self.0[i]
    }
}

impl Key for Symbol {
    type Unit = char;

    open spec fn units(&self) -> Seq<char> {
        self@
    }

    fn before_key(&self, other: &Self) -> (r: bool) {
        self.before(other)
    }
}

impl Key for Path {
    type Unit = NameView;

    open spec fn units(&self) -> Seq<NameView> {
        self@
    }

    fn before_key(&self, other: &Self) -> (r: bool) {
        self.before(other)
    }
}

} // verus!
