//! The parser of device-tree source: each rule of the grammar read at a
//! position of a vector of characters, and the entry points on text.
use super::lexer::{
    at_char, at_pair, at_word, read_hex, read_identifier, read_label, read_literal,
    read_reference, read_symbol, read_text, skip_spacing,
};
use super::syntax;
use super::syntax::{
    array, assigned, block, bracketed, cells, excerpt, expr, expr_rest, items, more_values, node,
    node_name, operands, operator, prop_values, Parse, SyntaxErrorKind, SyntaxErrorView,
    EXCERPT_LEN,
};
use super::text::{chars_of, string_of};
use super::view::{view_all, NodeView, PropView, ValueView};
use super::{lemma_array_view, lemma_node_view, Address, Node, NodeName, Prop, Symbol, Value};
use vstd::prelude::*;
use vstd::string::*;

verus! {

/// The items of `parts` written one behind the other.
pub open spec fn concat<T>(parts: Seq<Seq<T>>) -> Seq<T>
    decreases parts.len(),
{
    if parts.len() == 0 {
        Seq::empty()
    } else {
        concat(parts.drop_last()) + parts.last()
    }
}

/// The symbols of each list of `lists`, by their views.
pub open spec fn view_lists(lists: Seq<Vec<Symbol>>) -> Seq<Seq<Seq<char>>> {
    Seq::new(lists.len(), |i: int| view_all(lists[i]@))
}

/// The operands that a value brings into an expression: a symbol or a
/// reference itself, an expression its own operands, anything else none.
pub fn dependents(value: Value) -> (r: Vec<Symbol>)
    ensures
        view_all(r@) == operands(value@),
{
    match value {
        Value::Symbol(s) => {
            let mut out: Vec<Symbol> = Vec::new();
            out.push(s);
            assert(view_all(out@) =~= operands(value@));
            out
        },
        Value::Reference(s) => {
            let mut out: Vec<Symbol> = Vec::new();
            out.push(s);
            assert(view_all(out@) =~= operands(value@));
            out
        },
        Value::Expr(inner) => inner,
        Value::Address(_) => {
            let out: Vec<Symbol> = Vec::new();
            assert(view_all(out@) =~= operands(value@));
            out
        },
        Value::Text(_) => {
            let out: Vec<Symbol> = Vec::new();
            assert(view_all(out@) =~= operands(value@));
            out
        },
        Value::Array(_) => {
            let out: Vec<Symbol> = Vec::new();
            assert(view_all(out@) =~= operands(value@));
            out
        },
    }
}

/// The operands of an expression: those of its first value, then those of
/// each further part, in order.
pub fn flatten(deps: Vec<Symbol>, more_deps: Vec<Vec<Symbol>>) -> (r: Vec<Symbol>)
    ensures
        view_all(r@) == view_all(deps@) + concat(view_lists(more_deps@)),
{
    let ghost first = view_all(deps@);
    let ghost parts = view_lists(more_deps@);
    let mut out = deps;
    proof {
        assert(parts.subrange(0, 0) =~= Seq::empty());
        assert(view_all(out@) =~= first + concat(parts.subrange(0, 0)));
    }
    for part in it: more_deps
        invariant
            it.seq() == more_deps@,
            parts == view_lists(more_deps@),
            view_all(out@) == first + concat(parts.subrange(0, it.index() as int)),
    {
        let ghost before = view_all(out@);
        let ghost added = view_all(part@);
        let mut part = part;
        out.append(&mut part);
        proof {
            let upto = parts.subrange(0, it.index() + 1);
            assert(upto.drop_last() =~= parts.subrange(0, it.index() as int));
            assert(upto.last() == added);
            assert(view_all(out@) =~= before + added);
            assert(view_all(out@) =~= first + concat(upto));
        }
    }
    proof {
        assert(parts.subrange(0, more_deps@.len() as int) =~= parts);
    }
    out
}

/// How many characters the operator at `pos` takes.
pub fn operator_at(s: &Vec<char>, pos: usize) -> (r: Option<usize>)
    requires
        pos <= s.len(),
    ensures
        r matches Some(n) ==> 1 <= n <= 2 && pos + n <= s.len() && operator(s@, pos as int)
            == Some(n as int),
        r is None ==> operator(s@, pos as int) is None,
{
    if at_pair(s, pos, '|', '|') || at_pair(s, pos, '&', '&') || at_pair(s, pos, '<', '<') {
        Some(2)
    } else if pos < s.len() {
        let c = s[pos];
        if c == '|' || c == '&' || c == '^' || c == '*' || c == '/' || c == '+' || c == '-' || c
            == '%' {
            Some(1)
        } else {
            None
        }
    } else {
        None
    }
}

/// A simple value at `pos`.
pub fn simple_value_at(s: &Vec<char>, pos: usize) -> (r: Option<(Value, usize)>)
    requires
        pos <= s.len(),
    ensures
        r matches Some((value, end)) ==> pos < end <= s.len() && syntax::simple_value(
            s@,
            pos as int,
        ) == Some((value@, end as int)),
        r is None ==> syntax::simple_value(s@, pos as int) is None,
    decreases s.len() - pos, 2nat,
{
    if let Some((name, end)) = read_identifier(s, pos) {
        return Some((Value::Symbol(name), end));
    }
    if let Some((address, end)) = read_literal(s, pos) {
        return Some((Value::Address(address), end));
    }
    if let Some((label, end)) = read_reference(s, pos) {
        return Some((Value::Reference(label), end));
    }
    if let Some((inner, end)) = expr_in_brackets_at(s, pos) {
        return Some((Value::Expr(inner), end));
    }
    None
}

/// An expression in parentheses at `pos`.
pub fn expr_in_brackets_at(s: &Vec<char>, pos: usize) -> (r: Option<(Vec<Symbol>, usize)>)
    requires
        pos <= s.len(),
    ensures
        r matches Some((inner, end)) ==> pos < end <= s.len() && bracketed(s@, pos as int)
            == Some((view_all(inner@), end as int)),
        r is None ==> bracketed(s@, pos as int) is None,
    decreases s.len() - pos, 1nat,
{
    if !at_char(s, pos, '(') {
        return None;
    }
    let from = skip_spacing(s, pos + 1);
    match expr_at(s, from) {
        Some((inner, end)) => {
            let close = skip_spacing(s, end);
            if at_char(s, close, ')') {
                Some((inner, close + 1))
            } else {
                None
            }
        },
        None => None,
    }
}

/// An expression at `pos`: its operands.
pub fn expr_at(s: &Vec<char>, pos: usize) -> (r: Option<(Vec<Symbol>, usize)>)
    requires
        pos <= s.len(),
    ensures
        r matches Some((found, end)) ==> pos < end <= s.len() && expr(s@, pos as int) == Some(
            (view_all(found@), end as int),
        ),
        r is None ==> expr(s@, pos as int) is None,
    decreases s.len() - pos, 3nat,
{
    match simple_value_at(s, pos) {
        Some((first, end)) => {
            let (more, after) = expr_rest_at(s, end);
            Some((flatten(dependents(first), more), after))
        },
        None => None,
    }
}

/// What follows the first value of an expression, from `pos` on: the
/// operands of each part.
pub fn expr_rest_at(s: &Vec<char>, pos: usize) -> (r: (Vec<Vec<Symbol>>, usize))
    requires
        pos <= s.len(),
    ensures
        pos <= r.1 <= s.len(),
        (concat(view_lists(r.0@)), r.1 as int) == expr_rest(s@, pos as int),
    decreases s.len() - pos, 4nat,
{
    let mut parts: Vec<Vec<Symbol>> = Vec::new();
    let mut i: usize = pos;
    proof {
        assert(view_lists(parts@) =~= Seq::empty());
        assert(concat(view_lists(parts@)) + expr_rest(s@, pos as int).0 =~= expr_rest(
            s@,
            pos as int,
        ).0);
    }
    loop
        invariant
            pos <= i <= s.len(),
            expr_rest(s@, pos as int) == (
                concat(view_lists(parts@)) + expr_rest(s@, i as int).0,
                expr_rest(s@, i as int).1,
            ),
        decreases s.len() - i,
    {
        let ghost sofar = concat(view_lists(parts@));
        let ghost lists = view_lists(parts@);
        let at = skip_spacing(s, i);
        let mut part: Option<(Vec<Symbol>, usize)> = None;
        if let Some(width) = operator_at(s, at) {
            let from = skip_spacing(s, at + width);
            if let Some((value, end)) = simple_value_at(s, from) {
                part = Some((dependents(value), skip_spacing(s, end)));
            }
        }
        if part.is_none() {
            if let Some((inner, end)) = expr_in_brackets_at(s, at) {
                part = Some((inner, skip_spacing(s, end)));
            }
        }
        match part {
            Some((found, next)) => {
                let ghost added = view_all(found@);
                parts.push(found);
                proof {
                    assert(view_lists(parts@) =~= lists.push(added));
                    assert(view_lists(parts@).drop_last() =~= lists);
                    let rest = expr_rest(s@, next as int);
                    assert(concat(view_lists(parts@)) + rest.0 =~= sofar + (added + rest.0));
                }
                i = next;
            },
            None => {
                assert(sofar + Seq::<Seq<char>>::empty() =~= sofar);
                return (parts, i);
            },
        }
    }
}

/// The cells of an array from `pos` on.
pub fn cells_at(s: &Vec<char>, pos: usize) -> (r: (Vec<Value>, usize))
    requires
        pos <= s.len(),
    ensures
        pos <= r.1 <= s.len(),
        (view_all(r.0@), r.1 as int) == cells(s@, pos as int),
{
    let mut out: Vec<Value> = Vec::new();
    let mut i: usize = pos;
    proof {
        assert(view_all(out@) + cells(s@, pos as int).0 =~= cells(s@, pos as int).0);
    }
    loop
        invariant
            pos <= i <= s.len(),
            cells(s@, pos as int) == (
                view_all(out@) + cells(s@, i as int).0,
                cells(s@, i as int).1,
            ),
        decreases s.len() - i,
    {
        let ghost sofar = view_all(out@);
        let at = skip_spacing(s, i);
        match simple_value_at(s, at) {
            Some((cell, end)) => {
                let next = skip_spacing(s, end);
                let ghost added = cell@;
                out.push(cell);
                proof {
                    let rest = cells(s@, next as int);
                    assert(view_all(out@) + rest.0 =~= sofar + (seq![added] + rest.0));
                }
                i = next;
            },
            None => {
                assert(sofar + Seq::<ValueView>::empty() =~= sofar);
                return (out, i);
            },
        }
    }
}

/// An array at `pos`: cells between `<` and `>`.
pub fn array_at(s: &Vec<char>, pos: usize) -> (r: Option<(Vec<Value>, usize)>)
    requires
        pos <= s.len(),
    ensures
        r matches Some((found, end)) ==> pos < end <= s.len() && array(s@, pos as int) == Some(
            (view_all(found@), end as int),
        ),
        r is None ==> array(s@, pos as int) is None,
{
    if !at_char(s, pos, '<') {
        return None;
    }
    let (found, end) = cells_at(s, pos + 1);
    if at_char(s, end, '>') {
        Some((found, end + 1))
    } else {
        None
    }
}

/// A property value at `pos`: a quoted text, a simple value, or an array.
pub fn prop_value_at(s: &Vec<char>, pos: usize) -> (r: Option<(Value, usize)>)
    requires
        pos <= s.len(),
    ensures
        r matches Some((value, end)) ==> pos < end <= s.len() && syntax::prop_value(s@, pos as int)
            == Some((value@, end as int)),
        r is None ==> syntax::prop_value(s@, pos as int) is None,
{
    if let Some((content, end)) = read_text(s, pos) {
        return Some((Value::Text(content), end));
    }
    if let Some(found) = simple_value_at(s, pos) {
        return Some(found);
    }
    if let Some((found, end)) = array_at(s, pos) {
        proof {
            lemma_array_view(found);
        }
        return Some((Value::Array(found), end));
    }
    None
}

/// The values of a property at `pos`: one or more, separated by commas.
pub fn prop_values_at(s: &Vec<char>, pos: usize) -> (r: Option<(Vec<Value>, usize)>)
    requires
        pos <= s.len(),
    ensures
        r matches Some((found, end)) ==> pos < end <= s.len() && prop_values(s@, pos as int)
            == Some((view_all(found@), end as int)),
        r is None ==> prop_values(s@, pos as int) is None,
{
    let (first, start) = match prop_value_at(s, pos) {
        Some(found) => found,
        None => {
            return None;
        },
    };
    let mut out: Vec<Value> = Vec::new();
    let ghost head = first@;
    out.push(first);
    let mut i: usize = start;
    proof {
        assert(view_all(out@) =~= seq![head]);
        assert(view_all(out@) + more_values(s@, start as int).0 =~= seq![head] + more_values(
            s@,
            start as int,
        ).0);
    }
    loop
        invariant
            pos < start <= i <= s.len(),
            syntax::prop_value(s@, pos as int) == Some((head, start as int)),
            prop_values(s@, pos as int) == Some(
                (view_all(out@) + more_values(s@, i as int).0, more_values(s@, i as int).1),
            ),
        decreases s.len() - i,
    {
        let ghost sofar = view_all(out@);
        let comma = skip_spacing(s, i);
        if !at_char(s, comma, ',') {
            assert(more_values(s@, i as int) == (Seq::<ValueView>::empty(), i as int));
            assert(sofar + Seq::<ValueView>::empty() =~= sofar);
            return Some((out, i));
        }
        let from = skip_spacing(s, comma + 1);
        match prop_value_at(s, from) {
            Some((value, end)) => {
                let ghost added = value@;
                out.push(value);
                proof {
                    let rest = more_values(s@, end as int);
                    assert(more_values(s@, i as int) == (seq![added] + rest.0, rest.1));
                    assert(view_all(out@) =~= sofar.push(added));
                    assert(view_all(out@) + rest.0 =~= sofar + (seq![added] + rest.0));
                }
                i = end;
            },
            None => {
                assert(more_values(s@, i as int) == (Seq::<ValueView>::empty(), i as int));
                assert(sofar + Seq::<ValueView>::empty() =~= sofar);
                return Some((out, i));
            },
        }
    }
}

/// A property at `pos`: a name, its values if it has any, and `;`.
pub fn prop_at(s: &Vec<char>, pos: usize) -> (r: Option<(Prop, usize)>)
    requires
        pos <= s.len(),
    ensures
        r matches Some((found, end)) ==> pos < end <= s.len() && syntax::prop(s@, pos as int)
            == Some((found@, end as int)),
        r is None ==> syntax::prop(s@, pos as int) is None,
{
    let (name, end) = match read_symbol(s, pos) {
        Some(found) => found,
        None => {
            return None;
        },
    };
    let mut value: Vec<Value> = Vec::new();
    let mut after: usize = end;
    let equals = skip_spacing(s, end);
    if at_char(s, equals, '=') {
        let from = skip_spacing(s, equals + 1);
        if let Some((found, stop)) = prop_values_at(s, from) {
            value = found;
            after = stop;
        }
    }
    proof {
        if after == end {
            assert(view_all(value@) =~= Seq::<ValueView>::empty());
        }
        assert((view_all(value@), after as int) == assigned(s@, end as int));
    }
    let semicolon = skip_spacing(s, after);
    if at_char(s, semicolon, ';') {
        let stop = skip_spacing(s, semicolon + 1);
        Some((Prop { name, value }, stop))
    } else {
        None
    }
}

/// The properties from `pos` on.
pub fn props_at(s: &Vec<char>, pos: usize) -> (r: (Vec<Prop>, usize))
    requires
        pos <= s.len(),
    ensures
        pos <= r.1 <= s.len(),
        (view_all(r.0@), r.1 as int) == syntax::props(s@, pos as int),
{
    let mut out: Vec<Prop> = Vec::new();
    let mut i: usize = pos;
    proof {
        assert(view_all(out@) + syntax::props(s@, pos as int).0 =~= syntax::props(
            s@,
            pos as int,
        ).0);
    }
    loop
        invariant
            pos <= i <= s.len(),
            syntax::props(s@, pos as int) == (
                view_all(out@) + syntax::props(s@, i as int).0,
                syntax::props(s@, i as int).1,
            ),
        decreases s.len() - i,
    {
        let ghost sofar = view_all(out@);
        let at = skip_spacing(s, i);
        match prop_at(s, at) {
            Some((found, end)) => {
                let next = skip_spacing(s, end);
                let ghost added = found@;
                out.push(found);
                proof {
                    let rest = syntax::props(s@, next as int);
                    assert(view_all(out@) + rest.0 =~= sofar + (seq![added] + rest.0));
                }
                i = next;
            },
            None => {
                assert(sofar + Seq::<PropView>::empty() =~= sofar);
                return (out, i);
            },
        }
    }
}

/// The name of a node at `pos`: `/`, a name with an optional unit address,
/// or a reference.
pub fn node_name_at(s: &Vec<char>, pos: usize) -> (r: Option<(NodeName, usize)>)
    requires
        pos <= s.len(),
    ensures
        r matches Some((name, end)) ==> pos < end <= s.len() && node_name(s@, pos as int)
            == Some((name@, end as int)),
        r is None ==> node_name(s@, pos as int) is None,
{
    if at_char(s, pos, '/') {
        let root = NodeName::Symbol(Symbol(String::new()), None);
        return Some((root, pos + 1));
    }
    if let Some((name, end)) = read_symbol(s, pos) {
        if at_char(s, end, '@') {
            if let Some((address, after)) = read_hex(s, end + 1) {
                return Some((NodeName::Symbol(name, Some(address)), after));
            }
        }
        return Some((NodeName::Symbol(name, None), end));
    }
    match read_reference(s, pos) {
        Some((label, end)) => Some((NodeName::Reference(label), end)),
        None => None,
    }
}

/// How reading a rule that may hold a block ends.
pub enum Step<T> {
    /// The rule matched: its value and the position behind it.
    Match(T, usize),
    /// The rule did not match.
    Miss,
    /// A block lacks its `}` at the position given.
    Abort(usize),
}

/// A node at `pos`.
pub fn node_at(s: &Vec<char>, pos: usize) -> (r: Step<Node>)
    requires
        pos <= s.len(),
    ensures
        match r {
            Step::Match(found, end) => pos < end <= s.len() && node(s@, pos as int)
                == Parse::Match(found@, end as int),
            Step::Miss => node(s@, pos as int) == Parse::<NodeView>::Miss,
            Step::Abort(stop) => pos <= stop <= s.len() && node(s@, pos as int)
                == Parse::<NodeView>::Abort(stop as int),
        },
    decreases s.len() - pos, 2nat,
{
    let mut labels: Vec<Symbol> = Vec::new();
    let mut from: usize = pos;
    if let Some((name, end)) = read_label(s, pos) {
        labels.push(name);
        from = end;
        assert(view_all(labels@) =~= seq![name@]);
    } else {
        assert(view_all(labels@) =~= Seq::<Seq<char>>::empty());
    }
    let at = skip_spacing(s, from);
    match node_name_at(s, at) {
        Some((name, end)) => {
            let open = skip_spacing(s, end);
            match block_at(s, open) {
                Step::Match((props, nodes), after) => {
                    let stop = skip_spacing(s, after);
                    let found = Node { labels, name, props, nodes };
                    proof {
                        lemma_node_view(found);
                    }
                    Step::Match(found, stop)
                },
                Step::Miss => Step::Miss,
                Step::Abort(stop) => Step::Abort(stop),
            }
        },
        None => Step::Miss,
    }
}

/// A block at `pos`: properties and child nodes between `{` and `}`, and
/// `;`.
pub fn block_at(s: &Vec<char>, pos: usize) -> (r: Step<(Vec<Prop>, Vec<Node>)>)
    requires
        pos <= s.len(),
    ensures
        match r {
            Step::Match((found, children), end) => pos < end <= s.len() && block(s@, pos as int)
                == Parse::Match((view_all(found@), view_all(children@)), end as int),
            Step::Miss => block(s@, pos as int) == Parse::<(Seq<PropView>, Seq<NodeView>)>::Miss,
            Step::Abort(stop) => pos <= stop <= s.len() && block(s@, pos as int) == Parse::<
                (Seq<PropView>, Seq<NodeView>),
            >::Abort(stop as int),
        },
    decreases s.len() - pos, 1nat,
{
    if !at_char(s, pos, '{') {
        return Step::Miss;
    }
    let (found, from) = props_at(s, pos + 1);
    match nodes_at(s, from) {
        Step::Match(children, close) => {
            if at_char(s, close, '}') {
                let semicolon = skip_spacing(s, close + 1);
                if at_char(s, semicolon, ';') {
                    Step::Match((found, children), skip_spacing(s, semicolon + 1))
                } else {
                    Step::Miss
                }
            } else {
                Step::Abort(close)
            }
        },
        Step::Miss => Step::Miss,
        Step::Abort(stop) => Step::Abort(stop),
    }
}

/// `found` put before what `rest` matched; a miss or an abort stays what it
/// is.
pub open spec fn preceded_by(found: Seq<NodeView>, rest: Parse<Seq<NodeView>>) -> Parse<
    Seq<NodeView>,
> {
    match rest {
        Parse::Match(more, end) => Parse::Match(found + more, end),
        Parse::Miss => Parse::Miss,
        Parse::Abort(stop) => Parse::Abort(stop),
    }
}

/// The nodes from `pos` on.
pub fn nodes_at(s: &Vec<char>, pos: usize) -> (r: Step<Vec<Node>>)
    requires
        pos <= s.len(),
    ensures
        match r {
            Step::Match(found, end) => pos <= end <= s.len() && syntax::nodes(s@, pos as int)
                == Parse::Match(view_all(found@), end as int),
            Step::Miss => false,
            Step::Abort(stop) => pos <= stop <= s.len() && syntax::nodes(s@, pos as int) == Parse::<
                Seq<NodeView>,
            >::Abort(stop as int),
        },
    decreases s.len() - pos, 3nat,
{
    let mut out: Vec<Node> = Vec::new();
    let mut i: usize = pos;
    proof {
        assert(view_all(out@) =~= Seq::<NodeView>::empty());
        lemma_preceded_by_nothing(syntax::nodes(s@, pos as int));
    }
    loop
        invariant
            pos <= i <= s.len(),
            syntax::nodes(s@, pos as int) == preceded_by(
                view_all(out@),
                syntax::nodes(s@, i as int),
            ),
        decreases s.len() - i,
    {
        let ghost sofar = view_all(out@);
        let at = skip_spacing(s, i);
        match node_at(s, at) {
            Step::Match(found, next) => {
                let ghost added = found@;
                out.push(found);
                proof {
                    assert(view_all(out@) =~= sofar.push(added));
                    lemma_preceded_by_one(sofar, added, syntax::nodes(s@, next as int));
                }
                i = next;
            },
            Step::Miss => {
                assert(sofar + Seq::<NodeView>::empty() =~= sofar);
                return Step::Match(out, i);
            },
            Step::Abort(stop) => {
                return Step::Abort(stop);
            },
        }
    }
}

/// Nothing put before a result leaves it as it is.
pub proof fn lemma_preceded_by_nothing(rest: Parse<Seq<NodeView>>)
    ensures
        preceded_by(Seq::empty(), rest) == rest,
{
    match rest {
        Parse::Match(more, _) => {
            assert(Seq::<NodeView>::empty() + more =~= more);
        },
        _ => {},
    }
}

/// Putting nodes before one node and what follows it is putting them and
/// the node before what follows.
pub proof fn lemma_preceded_by_one(found: Seq<NodeView>, one: NodeView, rest: Parse<Seq<NodeView>>)
    ensures
        preceded_by(found, preceded_by(seq![one], rest)) == preceded_by(found.push(one), rest),
{
    match rest {
        Parse::Match(more, _) => {
            assert(found + (seq![one] + more) =~= found.push(one) + more);
        },
        _ => {},
    }
}

/// The items of a document from `pos` on: nodes, and version markers,
/// which give nothing.
pub fn items_at(s: &Vec<char>, pos: usize) -> (r: Step<Vec<Node>>)
    requires
        pos <= s.len(),
    ensures
        match r {
            Step::Match(found, end) => pos <= end <= s.len() && items(s@, pos as int)
                == Parse::Match(view_all(found@), end as int),
            Step::Miss => false,
            Step::Abort(stop) => pos <= stop <= s.len() && items(s@, pos as int) == Parse::<
                Seq<NodeView>,
            >::Abort(stop as int),
        },
{
    let mut out: Vec<Node> = Vec::new();
    let mut i: usize = pos;
    proof {
        assert(view_all(out@) =~= Seq::<NodeView>::empty());
        lemma_preceded_by_nothing(items(s@, pos as int));
        reveal_strlit("/dts-v1/;");
    }
    loop
        invariant
            pos <= i <= s.len(),
            "/dts-v1/;"@.len() == 9,
            items(s@, pos as int) == preceded_by(view_all(out@), items(s@, i as int)),
        decreases s.len() - i,
    {
        let ghost sofar = view_all(out@);
        let at = skip_spacing(s, i);
        match node_at(s, at) {
            Step::Match(found, next) => {
                let ghost added = found@;
                out.push(found);
                proof {
                    assert(view_all(out@) =~= sofar.push(added));
                    lemma_preceded_by_one(sofar, added, items(s@, next as int));
                }
                i = next;
            },
            Step::Miss => {
                if at_word(s, at, "/dts-v1/;") {
                    i = skip_spacing(s, at + 9);
                } else {
                    assert(sofar + Seq::<NodeView>::empty() =~= sofar);
                    return Step::Match(out, i);
                }
            },
            Step::Abort(stop) => {
                return Step::Abort(stop);
            },
        }
    }
}

/// A syntax error: why parsing stopped, where, and what stands there.
#[derive(Debug, PartialEq, Eq)]
pub struct SyntaxError {
    /// Why parsing stopped.
    pub kind: SyntaxErrorKind,
    /// How many characters of the input stand before the place.
    pub offset: usize,
    /// What is left of the input at that place, cut after `EXCERPT_LEN`
    /// characters.
    pub excerpt: String,
}

impl View for SyntaxError {
    type V = SyntaxErrorView;

    open spec fn view(&self) -> SyntaxErrorView {
        SyntaxErrorView { kind: self.kind, offset: self.offset as int }
    }
}

/// What an error of kind `kind` says was expected.
pub open spec fn kind_label(kind: SyntaxErrorKind) -> Seq<char> {
    match kind {
        SyntaxErrorKind::MissingClosingBrace => "expected closing brace"@,
        SyntaxErrorKind::TrailingInput => "expected end of input"@,
        SyntaxErrorKind::NoMatch => "no match"@,
    }
}

/// The decimal digits, in order of their value.
pub open spec fn decimal_alphabet() -> Seq<char> {
    "0123456789"@
}

/// The number `n` in decimal, without leading zeros.
pub open spec fn decimal_digits(n: nat) -> Seq<char>
    decreases n,
{
    if n < 10 {
        seq![decimal_alphabet()[n as int]]
    } else {
        decimal_digits(n / 10).push(decimal_alphabet()[(n % 10) as int])
    }
}

/// A syntax error as one line of text.
pub open spec fn error_text(kind: SyntaxErrorKind, offset: nat, excerpt: Seq<char>) -> Seq<char> {
    "syntax error at character "@ + decimal_digits(offset) + ": "@ + kind_label(kind)
        + ", found: "@ + excerpt
}

/// Appends the decimal digits of `n` to `out`.
pub fn push_decimal(out: &mut String, n: usize)
    ensures
        final(out)@ == old(out)@ + decimal_digits(n as nat),
    decreases n,
{
    proof {
        reveal_strlit("0123456789");
    }
    if n >= 10 {
        push_decimal(out, n / 10);
    }
    let digit = "0123456789".get_char(n % 10);
    out.push(digit);
    assert(out@ =~= old(out)@ + decimal_digits(n as nat));
}

impl SyntaxError {
    /// What was expected at the place where parsing stopped, as text.
    pub fn label(&self) -> (r: String)
        ensures
            r@ == kind_label(self.kind),
    {
        let mut out = String::new();
        match self.kind {
            SyntaxErrorKind::MissingClosingBrace => out.append("expected closing brace"),
            SyntaxErrorKind::TrailingInput => out.append("expected end of input"),
            SyntaxErrorKind::NoMatch => out.append("no match"),
        }
        assert(out@ =~= kind_label(self.kind));
        out
    }

    /// The chain of context labels of the error, innermost first. Every
    /// error of this grammar arises in one rule, so the chain has one link.
    pub fn context(&self) -> (r: Vec<String>)
        ensures
            r@.len() == 1,
            r@[0]@ == kind_label(self.kind),
    {
        let mut chain: Vec<String> = Vec::new();
        chain.push(self.label());
        chain
    }

    /// The error as one line of text: where parsing stopped, what was
    /// expected there, and what stands there.
    pub fn to_text(&self) -> (r: String)
        ensures
            r@ == error_text(self.kind, self.offset as nat, self.excerpt@),
    {
        let mut out = String::new();
        out.append("syntax error at character ");
        push_decimal(&mut out, self.offset);
        out.append(": ");
        out.append(self.label().as_str());
        out.append(", found: ");
        out.append(self.excerpt.as_str());
        assert(out@ =~= error_text(self.kind, self.offset as nat, self.excerpt@));
        out
    }
}

/// The error of kind `kind` at `offset` of the input `s`.
pub fn syntax_error(s: &Vec<char>, kind: SyntaxErrorKind, offset: usize) -> (e: SyntaxError)
    requires
        offset <= s.len(),
    ensures
        e.kind == kind,
        e.offset == offset,
        e.excerpt@ == excerpt(s@, offset as int),
{
    let end = if s.len() - offset >= EXCERPT_LEN {
        offset + EXCERPT_LEN
    } else {
        s.len()
    };
    SyntaxError { kind, offset, excerpt: string_of(s, offset, end) }
}

/// What is left of `input` from the character at `from` on.
pub fn rest_of<'a>(input: &'a str, from: usize) -> (rest: &'a str)
    requires
        from <= input@.len(),
    ensures
        rest@ == input@.subrange(from as int, input@.len() as int),
{
    let n = input.unicode_len();
    input.substring_char(from, n)
}

/// Parses a device-tree source as a forest: the root with what is below
/// it, and fragments that reopen labelled nodes, in source order.
///
/// The whole input has to be taken: on success nothing is left of it.
pub fn tree(input: &str) -> (r: Result<(&str, Vec<Node>), SyntaxError>)
    ensures
        match r {
            Ok((rest, forest)) => rest@.len() == 0 && syntax::tree(input@) == Ok::<
                Seq<NodeView>,
                SyntaxErrorView,
            >(view_all(forest@)),
            Err(e) => syntax::tree(input@) == Err::<Seq<NodeView>, SyntaxErrorView>(e@)
                && e.excerpt@ == excerpt(input@, e.offset as int),
        },
{
    let s = chars_of(input);
    match items_at(&s, 0) {
        Step::Match(forest, end) => {
            let stop = skip_spacing(&s, end);
            if stop == s.len() {
                Ok((rest_of(input, stop), forest))
            } else {
                Err(syntax_error(&s, SyntaxErrorKind::TrailingInput, end))
            }
        },
        Step::Miss => Err(syntax_error(&s, SyntaxErrorKind::NoMatch, 0)),
        Step::Abort(stop) => Err(syntax_error(&s, SyntaxErrorKind::MissingClosingBrace, stop)),
    }
}

/// Parses nodes from the start of `input`, as many as follow one another,
/// and hands out what is left of the input behind them.
pub fn nodes(input: &str) -> (r: Result<(&str, Vec<Node>), SyntaxError>)
    ensures
        match r {
            Ok((rest, forest)) => rest@.len() <= input@.len() && syntax::nodes(input@, 0)
                == Parse::Match(view_all(forest@), input@.len() - rest@.len()) && rest@
                == input@.subrange(input@.len() - rest@.len(), input@.len() as int),
            Err(e) => e.kind == SyntaxErrorKind::MissingClosingBrace && syntax::nodes(input@, 0)
                == Parse::<Seq<NodeView>>::Abort(e.offset as int) && e.excerpt@ == excerpt(
                input@,
                e.offset as int,
            ),
        },
{
    let s = chars_of(input);
    match nodes_at(&s, 0) {
        Step::Match(forest, end) => Ok((rest_of(input, end), forest)),
        Step::Miss => Err(syntax_error(&s, SyntaxErrorKind::NoMatch, 0)),
        Step::Abort(stop) => Err(syntax_error(&s, SyntaxErrorKind::MissingClosingBrace, stop)),
    }
}

/// Parses properties from the start of `input`, as many as follow one
/// another, and hands out what is left of the input behind them.
pub fn props(input: &str) -> (r: Result<(&str, Vec<Prop>), SyntaxError>)
    ensures
        r matches Ok((rest, found)) && rest@.len() <= input@.len() && syntax::props(input@, 0) == (
            view_all(found@),
            input@.len() - rest@.len(),
        ) && rest@ == input@.subrange(input@.len() - rest@.len(), input@.len() as int),
{
    let s = chars_of(input);
    let (found, end) = props_at(&s, 0);
    Ok((rest_of(input, end), found))
}

/// Parses one property at the start of `input` and hands out what is left
/// of the input behind it.
pub fn prop(input: &str) -> (r: Result<(&str, Prop), SyntaxError>)
    ensures
        match r {
            Ok((rest, found)) => rest@.len() < input@.len() && syntax::prop(input@, 0) == Some(
                (found@, input@.len() - rest@.len()),
            ) && rest@ == input@.subrange(input@.len() - rest@.len(), input@.len() as int),
            Err(e) => syntax::prop(input@, 0) is None && e@ == (SyntaxErrorView {
                kind: SyntaxErrorKind::NoMatch,
                offset: 0,
            }) && e.excerpt@ == excerpt(input@, 0),
        },
{
    let s = chars_of(input);
    match prop_at(&s, 0) {
        Some((found, end)) => Ok((rest_of(input, end), found)),
        None => Err(syntax_error(&s, SyntaxErrorKind::NoMatch, 0)),
    }
}

/// Parses one property value at the start of `input` and hands out what is
/// left of the input behind it.
pub fn prop_value(input: &str) -> (r: Result<(&str, Value), SyntaxError>)
    ensures
        match r {
            Ok((rest, found)) => rest@.len() < input@.len() && syntax::prop_value(input@, 0)
                == Some((found@, input@.len() - rest@.len())) && rest@ == input@.subrange(
                input@.len() - rest@.len(),
                input@.len() as int,
            ),
            Err(e) => syntax::prop_value(input@, 0) is None && e@ == (SyntaxErrorView {
                kind: SyntaxErrorKind::NoMatch,
                offset: 0,
            }) && e.excerpt@ == excerpt(input@, 0),
        },
{
    let s = chars_of(input);
    match prop_value_at(&s, 0) {
        Some((found, end)) => Ok((rest_of(input, end), found)),
        None => Err(syntax_error(&s, SyntaxErrorKind::NoMatch, 0)),
    }
}

/// Parses one simple value at the start of `input` and hands out what is
/// left of the input behind it.
pub fn simple_value(input: &str) -> (r: Result<(&str, Value), SyntaxError>)
    ensures
        match r {
            Ok((rest, found)) => rest@.len() < input@.len() && syntax::simple_value(input@, 0)
                == Some((found@, input@.len() - rest@.len())) && rest@ == input@.subrange(
                input@.len() - rest@.len(),
                input@.len() as int,
            ),
            Err(e) => syntax::simple_value(input@, 0) is None && e@ == (SyntaxErrorView {
                kind: SyntaxErrorKind::NoMatch,
                offset: 0,
            }) && e.excerpt@ == excerpt(input@, 0),
        },
{
    let s = chars_of(input);
    match simple_value_at(&s, 0) {
        Some((found, end)) => Ok((rest_of(input, end), found)),
        None => Err(syntax_error(&s, SyntaxErrorKind::NoMatch, 0)),
    }
}

} // verus!
