//! How the data model is written out as text.
use super::text::chars_of;
use super::view::{is_root_path, view_all, NameView, NodeView, PathView, PropView, ValueView};
use super::{
    lemma_array_view, lemma_node_view, Address, Node, NodeName, Path, Prop, Symbol, Value,
};
use vstd::prelude::*;
use vstd::string::*;

verus! {

/// The hexadecimal digits, in order of their value.
pub open spec fn hex_alphabet() -> Seq<char> {
    "0123456789abcdef"@
}

/// The number `n` in hexadecimal, without leading zeros.
pub open spec fn hex_digits(n: nat) -> Seq<char>
    decreases n,
{
    if n < 16 {
        seq![hex_alphabet()[n as int]]
    } else {
        hex_digits(n / 16).push(hex_alphabet()[(n % 16) as int])
    }
}

/// An address as text: `0x` and its hexadecimal digits.
pub open spec fn address_text(a: u64) -> Seq<char> {
    "0x"@ + hex_digits(a as nat)
}

/// A node name as text: `name`, `name@0x...`, or `&label`.
pub open spec fn name_text(name: NameView) -> Seq<char> {
    match name {
        NameView::Plain(s, None) => s,
        NameView::Plain(s, Some(a)) => s + "@"@ + address_text(a),
        NameView::Reference(s) => "&"@ + s,
    }
}

/// The items with `sep` between each two of them.
pub open spec fn joined(items: Seq<Seq<char>>, sep: Seq<char>) -> Seq<char>
    decreases items.len(),
{
    if items.len() == 0 {
        Seq::empty()
    } else if items.len() == 1 {
        items[0]
    } else {
        joined(items.drop_last(), sep) + sep + items.last()
    }
}

/// The items between `open` and `close`, with `sep` between each two of
/// them.
pub open spec fn delimited(
    items: Seq<Seq<char>>,
    open: Seq<char>,
    sep: Seq<char>,
    close: Seq<char>,
) -> Seq<char> {
    open + joined(items, sep) + close
}

/// The segments of a path as texts.
pub open spec fn names_text(path: PathView) -> Seq<Seq<char>> {
    Seq::new(path.len(), |i: int| name_text(path[i]))
}

/// A path as text: `/` for the root, else its segments with `/` between
/// them.
pub open spec fn path_text(path: PathView) -> Seq<char> {
    if is_root_path(path) {
        "/"@
    } else {
        joined(names_text(path), "/"@)
    }
}

/// `text` with a backslash put before each of its double quotes.
pub open spec fn escaped(text: Seq<char>) -> Seq<char>
    decreases text.len(),
{
    if text.len() == 0 {
        Seq::empty()
    } else if text.last() == '"' {
        escaped(text.drop_last()) + "\\\""@
    } else {
        escaped(text.drop_last()).push(text.last())
    }
}

/// A value as text: a symbol by its name, a reference behind `&`, an
/// address in hexadecimal, a text between double quotes with its own
/// double quotes escaped, an array between `<` and `>` with blanks, the
/// operands of an expression between parentheses with commas.
pub open spec fn value_text(value: ValueView) -> Seq<char>
    decreases value,
{
    match value {
        ValueView::Symbol(s) => s,
        ValueView::Reference(s) => "&"@ + s,
        ValueView::Address(a) => address_text(a),
        ValueView::Text(t) => "\""@ + escaped(t) + "\""@,
        ValueView::Array(items) => delimited(values_text(items), "<"@, " "@, ">"@),
        ValueView::Expr(operands) => delimited(operands, "("@, ", "@, ")"@),
    }
}

/// Each of the values as text.
pub open spec fn values_text(values: Seq<ValueView>) -> Seq<Seq<char>>
    decreases values,
{
    if values.len() == 0 {
        Seq::empty()
    } else {
        values_text(values.drop_last()).push(value_text(values.last()))
    }
}

/// A property as text: `name = true` for a flag, `name = value` for one
/// value, `name = [v1, v2]` for more.
pub open spec fn prop_text(prop: PropView) -> Seq<char> {
    prop.name + " = "@ + (if prop.value.len() == 0 {
        "true"@
    } else if prop.value.len() == 1 {
        value_text(prop.value[0])
    } else {
        delimited(values_text(prop.value), "["@, ", "@, "]"@)
    })
}

/// The lines of the properties, each behind `indent` and four blanks.
pub open spec fn props_lines(indent: Seq<char>, props: Seq<PropView>) -> Seq<char>
    decreases props.len(),
{
    if props.len() == 0 {
        Seq::empty()
    } else {
        props_lines(indent, props.drop_last()) + indent + "    "@ + prop_text(props.last())
            + "\n"@
    }
}

/// The line of a node's labels, if it has any: behind `indent` and two
/// blanks, with commas, closed by a colon.
pub open spec fn labels_line(indent: Seq<char>, labels: Seq<Seq<char>>) -> Seq<char> {
    if labels.len() == 0 {
        Seq::empty()
    } else {
        indent + delimited(labels, "  "@, ", "@, ":"@) + "\n"@
    }
}

/// A node under its path as text: the path, the labels if there are any,
/// and one line for each property, every line behind `indent`.
pub open spec fn path_node_text(indent: Seq<char>, path: PathView, node: NodeView) -> Seq<char> {
    indent + path_text(path) + "\n"@ + labels_line(indent, node.labels) + props_lines(
        indent,
        node.props,
    )
}

/// Appends the hexadecimal digits of `n` to `out`.
pub fn push_hex(out: &mut String, n: u64)
    ensures
        final(out)@ == old(out)@ + hex_digits(n as nat),
    decreases n,
{
    proof {
        reveal_strlit("0123456789abcdef");
    }
    if n >= 16 {
        push_hex(out, n / 16);
    }
    let digit = "0123456789abcdef".get_char((n % 16) as usize);
    out.push(digit);
    assert(out@ =~= old(out)@ + hex_digits(n as nat));
}

/// Appends `text` to `out`, with a backslash before each double quote.
pub fn push_escaped(out: &mut String, text: &str)
    ensures
        final(out)@ == old(out)@ + escaped(text@),
{
    let chars = chars_of(text);
    let mut i: usize = 0;
    proof {
        assert(chars@.subrange(0, 0) =~= Seq::<char>::empty());
        assert(out@ =~= old(out)@ + escaped(chars@.subrange(0, 0)));
    }
    while i < chars.len()
        invariant
            i <= chars.len(),
            chars@ == text@,
            out@ == old(out)@ + escaped(chars@.subrange(0, i as int)),
        decreases chars.len() - i,
    {
        proof {
            let upto = chars@.subrange(0, i + 1);
            assert(upto.drop_last() =~= chars@.subrange(0, i as int));
            assert(upto.last() == chars@[i as int]);
        }
        if chars[i] == '"' {
            out.append("\\\"");
        } else {
            out.push(chars[i]);
        }
        i += 1;
        assert(out@ =~= old(out)@ + escaped(chars@.subrange(0, i as int)));
    }
    proof {
        assert(chars@.subrange(0, i as int) =~= chars@);
    }
}

/// Appends `items` to `out`, between `open` and `close`, with `sep`
/// between each two of them.
pub fn fmt_delimited(elems: &Vec<String>, open: &str, sep: &str, close: &str, f: &mut String)
    ensures
        final(f)@ == old(f)@ + delimited(view_all(elems@), open@, sep@, close@),
{
    let ghost items = view_all(elems@);
    f.append(open);
    let mut i: usize = 0;
    proof {
        assert(items.subrange(0, 0) =~= Seq::<Seq<char>>::empty());
        assert(f@ =~= old(f)@ + open@ + joined(items.subrange(0, 0), sep@));
    }
    while i < elems.len()
        invariant
            i <= elems.len(),
            items == view_all(elems@),
            f@ == old(f)@ + open@ + joined(items.subrange(0, i as int), sep@),
        decreases elems.len() - i,
    {
        if i > 0 {
            f.append(sep);
        }
        f.append(elems[i].as_str());
        proof {
            let upto = items.subrange(0, i + 1);
            assert(upto.drop_last() =~= items.subrange(0, i as int));
            assert(upto.last() == elems@[i as int]@);
            if i == 0 {
                assert(upto[0] == elems@[0]@);
                assert(joined(items.subrange(0, 0), sep@) =~= Seq::<char>::empty());
                assert(f@ =~= old(f)@ + open@ + joined(upto, sep@));
            } else {
                assert(f@ =~= old(f)@ + open@ + joined(upto, sep@));
            }
        }
        i += 1;
    }
    f.append(close);
    proof {
        assert(items.subrange(0, i as int) =~= items);
        assert(f@ =~= old(f)@ + delimited(items, open@, sep@, close@));
    }
}

impl Symbol {
    /// The symbol as text: its name.
    pub fn to_text(&self) -> (r: String)
        ensures
            r@ == self@,
    {
        self.0.clone()
    }
}

impl Address {
    /// The address as text: `0x` and hexadecimal digits.
    pub fn to_text(&self) -> (r: String)
        ensures
            r@ == address_text(self@),
    {
        let mut out = String::new();
        out.append("0x");
        push_hex(&mut out, self.0);
        assert(out@ =~= address_text(self@));
        out
    }
}

impl NodeName {
    /// The name as text: `name`, `name@0x...`, or `&label`.
    pub fn to_text(&self) -> (r: String)
        ensures
            r@ == name_text(self@),
    {
        let mut out = String::new();
        match self {
            NodeName::Symbol(s, None) => {
                out.append(s.0.as_str());
                assert(out@ =~= name_text(self@));
            },
            NodeName::Symbol(s, Some(a)) => {
                out.append(s.0.as_str());
                out.append("@");
                out.append(a.to_text().as_str());
                assert(out@ =~= name_text(self@));
            },
            NodeName::Reference(s) => {
                out.append("&");
                out.append(s.0.as_str());
                assert(out@ =~= name_text(self@));
            },
        }
        out
    }
}

impl Path {
    /// The path as text: `/` for the root, else its segments with `/`
    /// between them.
    pub fn to_text(&self) -> (r: String)
        ensures
            r@ == path_text(self@),
    {
        let mut out = String::new();
        if self.is_root() {
            out.append("/");
            assert(out@ =~= path_text(self@));
        } else {
            let mut names: Vec<String> = Vec::new();
            let mut i: usize = 0;
            while i < self.len()
                invariant
                    i <= self@.len(),
                    names@.len() == i,
                    forall|j: int| 0 <= j < i ==> (#[trigger] names@[j])@ == name_text(self@[j]),
                decreases self@.len() - i,
            {
                names.push(self.segment(i).to_text());
                i += 1;
            }
            assert(view_all(names@) =~= names_text(self@));
            fmt_delimited(&names, "", "/", "", &mut out);
            proof {
                reveal_strlit("");
                assert(""@ =~= Seq::<char>::empty());
                assert(out@ =~= path_text(self@));
            }
        }
        out
    }
}

/// Each of the symbols as text.
pub fn symbols_text(items: &Vec<Symbol>) -> (r: Vec<String>)
    ensures
        view_all(r@) == view_all(items@),
{
    let mut out: Vec<String> = Vec::new();
    let mut i: usize = 0;
    while i < items.len()
        invariant
            i <= items.len(),
            out@.len() == i,
            forall|j: int| 0 <= j < i ==> (#[trigger] out@[j])@ == items@[j]@,
        decreases items.len() - i,
    {
        out.push(items[i].to_text());
        i += 1;
    }
    assert(view_all(out@) =~= view_all(items@));
    out
}

/// Each of the values as text.
pub fn values_to_text(items: &Vec<Value>) -> (r: Vec<String>)
    ensures
        view_all(r@) == values_text(view_all(items@)),
    decreases items,
{
    let ghost all = view_all(items@);
    let mut out: Vec<String> = Vec::new();
    let mut i: usize = 0;
    proof {
        assert(all.subrange(0, 0) =~= Seq::<ValueView>::empty());
        assert(view_all(out@) =~= values_text(all.subrange(0, 0)));
    }
    while i < items.len()
        invariant
            i <= items.len(),
            all == view_all(items@),
            view_all(out@) == values_text(all.subrange(0, i as int)),
        decreases items.len() - i,
    {
        let ghost before = view_all(out@);
        let text = items[i].to_text();
        out.push(text);
        proof {
            let upto = all.subrange(0, i + 1);
            assert(upto.drop_last() =~= all.subrange(0, i as int));
            assert(upto.last() == items@[i as int]@);
            assert(view_all(out@) =~= before.push(text@));
        }
        i += 1;
    }
    proof {
        assert(all.subrange(0, i as int) =~= all);
    }
    out
}

impl Value {
    /// The value as text.
    pub fn to_text(&self) -> (r: String)
        ensures
            r@ == value_text(self@),
        decreases self,
    {
        let mut out = String::new();
        match self {
            Value::Symbol(s) => {
                out.append(s.0.as_str());
                assert(out@ =~= value_text(self@));
            },
            Value::Reference(s) => {
                out.append("&");
                out.append(s.0.as_str());
                assert(out@ =~= value_text(self@));
            },
            Value::Address(a) => {
                out.append(a.to_text().as_str());
                assert(out@ =~= value_text(self@));
            },
            Value::Text(t) => {
                out.append("\"");
                push_escaped(&mut out, t.as_str());
                out.append("\"");
                assert(out@ =~= value_text(self@));
            },
            Value::Array(a) => {
                proof {
                    lemma_array_view(*a);
                }
                let items = values_to_text(a);
                fmt_delimited(&items, "<", " ", ">", &mut out);
                assert(out@ =~= value_text(self@));
            },
            Value::Expr(r) => {
                let items = symbols_text(r);
                fmt_delimited(&items, "(", ", ", ")", &mut out);
                assert(out@ =~= value_text(self@));
            },
        }
        out
    }
}

impl Prop {
    /// The property as text: `name = true`, `name = value` or
    /// `name = [v1, v2]`.
    pub fn to_text(&self) -> (r: String)
        ensures
            r@ == prop_text(self@),
    {
        let mut out = String::new();
        out.append(self.name.0.as_str());
        out.append(" = ");
        if self.value.len() == 0 {
            out.append("true");
        } else if self.value.len() == 1 {
            out.append(self.value[0].to_text().as_str());
        } else {
            let items = values_to_text(&self.value);
            fmt_delimited(&items, "[", ", ", "]", &mut out);
        }
        assert(out@ =~= prop_text(self@));
        out
    }
}

/// Appends a node under its path to `f`: the path, the labels if there are
/// any, and one line for each property, every line behind `indent`.
pub fn fmt_path_node(indent: &str, path: &Path, node: &Node, f: &mut String)
    ensures
        final(f)@ == old(f)@ + path_node_text(indent@, path@, node@),
{
    proof {
        lemma_node_view(*node);
    }
    f.append(indent);
    f.append(path.to_text().as_str());
    f.append("\n");
    if node.labels.len() > 0 {
        f.append(indent);
        let labels = symbols_text(&node.labels);
        fmt_delimited(&labels, "  ", ", ", ":", f);
        f.append("\n");
    }
    let ghost head = f@;
    let ghost props = node@.props;
    proof {
        assert(head =~= old(f)@ + indent@ + path_text(path@) + "\n"@ + labels_line(
            indent@,
            node@.labels,
        ));
        assert(props.subrange(0, 0) =~= Seq::<PropView>::empty());
        assert(f@ =~= head + props_lines(indent@, props.subrange(0, 0)));
    }
    let mut i: usize = 0;
    while i < node.props.len()
        invariant
            i <= node.props.len(),
            props == view_all(node.props@),
            f@ == head + props_lines(indent@, props.subrange(0, i as int)),
        decreases node.props.len() - i,
    {
        f.append(indent);
        f.append("    ");
        f.append(node.props[i].to_text().as_str());
        f.append("\n");
        proof {
            let upto = props.subrange(0, i + 1);
            assert(upto.drop_last() =~= props.subrange(0, i as int));
            assert(upto.last() == node.props@[i as int]@);
            assert(f@ =~= head + props_lines(indent@, upto));
        }
        i += 1;
    }
    proof {
        assert(props.subrange(0, i as int) =~= props);
        assert(f@ =~= old(f)@ + path_node_text(indent@, path@, node@));
    }
}

} // verus!
