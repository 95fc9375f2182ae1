use kiops::dts::parser::{tree, SyntaxError};
use kiops::dts::syntax::SyntaxErrorKind;
use kiops::dts::{Address, Node, NodeName, Prop, Symbol, Value};
use nom::branch::alt;
use nom::bytes::complete::{is_not, tag, take_until, take_while, take_while_m_n};
use nom::character::complete::{
    char, digit1, hex_digit1, multispace1, not_line_ending, one_of, satisfy,
};
use nom::combinator::{cut, eof, map_opt, map_res, opt, recognize, value, verify};
use nom::error::{ErrorKind, VerboseError, VerboseErrorKind};
use nom::multi::{fold_many0, many0, many0_count, separated_list1};
use nom::sequence::{delimited, preceded, separated_pair, terminated};
use nom::{IResult, Parser};

type Res<'a, T> = IResult<&'a str, T, VerboseError<&'a str>>;

fn spacing(i: &str) -> Res<()> {
    let preproc = value((), tag("#include").or(tag("# ")).and(not_line_ending));
    let comment = value((), tag("/*").and(take_until("*/")).and(tag("*/")))
        .or(value((), tag("//").and(not_line_ending)));
    value(
        (),
        many0_count(preproc.or(comment).or(value((), multispace1))),
    )
    .parse(i)
}

fn sym(i: &str) -> Res<Symbol> {
    let initial = |c: char| c.is_alphabetic() || c == '_' || c == '$' || c == '#';
    let rest = |c: char| c.is_alphanumeric() || "_$-.,".contains(c);
    recognize(satisfy(initial).and(take_while(rest)))
        .map(|s: &str| Symbol(s.into()))
        .parse(i)
}

fn ident(i: &str) -> Res<Symbol> {
    let initial = |c: char| c.is_alphabetic() || c == '_' || c == '$';
    let rest = |c: char| c.is_alphanumeric() || c == '_' || c == '$';
    recognize(satisfy(initial).and(take_while(rest)))
        .map(|s: &str| Symbol(s.into()))
        .parse(i)
}

fn reference(i: &str) -> Res<Symbol> {
    preceded(tag("&"), ident).parse(i)
}

fn hex(i: &str) -> Res<Address> {
    map_opt(hex_digit1, |s: &str| {
        u64::from_str_radix(s, 16).ok().map(Address)
    })
    .parse(i)
}

fn literal(i: &str) -> Res<Address> {
    let dec = map_opt(digit1, |s: &str| s.parse::<u64>().ok().map(Address));
    preceded(tag("0x"), hex).or(dec).parse(i)
}

fn quoted(i: &str) -> Res<String> {
    let code = map_opt(
        map_res(
            preceded(
                char('u'),
                delimited(
                    char('{'),
                    take_while_m_n(1, 6, |c: char| c.is_ascii_hexdigit()),
                    char('}'),
                ),
            ),
            |hex| u32::from_str_radix(hex, 16),
        ),
        std::char::from_u32,
    );
    let escaped = preceded(
        char('\\'),
        alt((
            code,
            value('\n', char('n')),
            value('\r', char('r')),
            value('\t', char('t')),
            value('\u{08}', char('b')),
            value('\u{0C}', char('f')),
            value('\\', char('\\')),
            value('/', char('/')),
            value('"', char('"')),
        )),
    );
    let plain = verify(is_not("\"\\"), |s: &str| !s.is_empty());
    let fragment = alt((
        plain.map(|s: &str| s.to_string()),
        escaped.map(|c: char| c.to_string()),
        value(String::new(), preceded(char('\\'), multispace1)),
    ));
    delimited(
        char('"'),
        fold_many0(fragment, String::new, |mut text, piece| {
            text.push_str(&piece);
            text
        }),
        char('"'),
    )
    .parse(i)
}

fn operands(value: Value) -> Vec<Symbol> {
    match value {
        Value::Symbol(s) => vec![s],
        Value::Reference(s) => vec![s],
        Value::Expr(ss) => ss,
        _ => Vec::new(),
    }
}

fn bracketed(i: &str) -> Res<Vec<Symbol>> {
    delimited(tag("("), delimited(spacing, expr, spacing), tag(")")).parse(i)
}

fn expr(i: &str) -> Res<Vec<Symbol>> {
    let operator = tag("||")
        .or(tag("&&"))
        .or(tag("<<"))
        .or(recognize(one_of("|&^*/+-%")));
    let binary = preceded(
        operator,
        delimited(spacing, simple_value.map(operands), spacing),
    );
    simple_value
        .map(operands)
        .and(many0(delimited(spacing, binary.or(bracketed), spacing)))
        .map(|(first, more)| first.into_iter().chain(more.into_iter().flatten()).collect())
        .parse(i)
}

fn simple_value(i: &str) -> Res<Value> {
    ident
        .map(Value::Symbol)
        .or(literal.map(Value::Address))
        .or(reference.map(Value::Reference))
        .or(bracketed.map(Value::Expr))
        .parse(i)
}

fn prop(i: &str) -> Res<Prop> {
    let array = delimited(
        tag("<"),
        many0(delimited(spacing, simple_value, spacing)),
        tag(">"),
    );
    let prop_value = quoted
        .map(Value::Text)
        .or(simple_value)
        .or(array.map(Value::Array));
    let non_empty = separated_pair(
        sym,
        delimited(spacing, tag("="), spacing),
        separated_list1(delimited(spacing, tag(","), spacing), prop_value),
    )
    .map(|(name, value)| Prop { name, value });
    let empty = sym.map(|name| Prop {
        name,
        value: Vec::new(),
    });
    terminated(non_empty.or(empty), delimited(spacing, tag(";"), spacing)).parse(i)
}

fn node(i: &str) -> Res<Node> {
    let root = value(NodeName::Symbol(Symbol(String::new()), None), tag("/"));
    let name = sym
        .and(opt(preceded(tag("@"), hex)))
        .map(|(s, a)| NodeName::Symbol(s, a));
    let node_name = root.or(name).or(reference.map(NodeName::Reference));
    let block = delimited(
        tag("{"),
        many0(delimited(spacing, prop, spacing)).and(many0(delimited(spacing, node, spacing))),
        cut(tag("}")).and(delimited(spacing, tag(";"), spacing)),
    );
    opt(terminated(ident, tag(":")))
        .and(delimited(spacing, node_name, spacing))
        .and(delimited(spacing, block, spacing))
        .map(|((label, name), (props, nodes))| Node {
            labels: label.into_iter().collect(),
            name,
            props,
            nodes,
        })
        .parse(i)
}

fn document(i: &str) -> Res<Vec<Node>> {
    let item = node.map(Some).or(tag("/dts-v1/;").map(|_| None));
    terminated(many0(delimited(spacing, item, spacing)), eof)
        .map(|ns| ns.into_iter().flatten().collect())
        .parse(i)
}

/// What the combinators say of `input`, in the terms of a syntax error.
/// Filler alone is a document without items, which the combinators take
/// only where nothing at all is left to take.
fn expected(input: &str) -> Result<Vec<Node>, SyntaxError> {
    if let Ok(("", ())) = spacing(input) {
        return Ok(Vec::new());
    }
    let fail = |e: VerboseError<&str>, fatal: bool| {
        assert_eq!(e.errors.len(), 1);
        let (rest, kind) = &e.errors[0];
        let kind = match (kind, fatal) {
            (VerboseErrorKind::Nom(ErrorKind::Tag), true) => SyntaxErrorKind::MissingClosingBrace,
            (VerboseErrorKind::Nom(ErrorKind::Eof), false) => SyntaxErrorKind::TrailingInput,
            other => panic!("{other:?}"),
        };
        SyntaxError {
            kind,
            offset: input[..input.len() - rest.len()].chars().count(),
            excerpt: rest.chars().take(160).collect(),
        }
    };
    match document(input) {
        Ok((rest, forest)) => {
            assert_eq!(rest, "");
            Ok(forest)
        }
        Err(nom::Err::Error(e)) => Err(fail(e, false)),
        Err(nom::Err::Failure(e)) => Err(fail(e, true)),
        Err(nom::Err::Incomplete(_)) => panic!("incomplete"),
    }
}

const DOCUMENTS: [&str; 80] = [
    "",
    "  what",
    "  ",
    " \n\t// only filler\n/* here */ ",
    " /* a */ x",
    "/ {}; /* a */ x",
    "/ {}; // trailing",
    "été: ñ@a { ü = é, <1>; }; ÿ",
    "/ { a = \"é\\u{10ffff}\\u{110000}\"; };",
    "/ { a = \"\\u{e9}\\u{0}\\u{d7ff}\"; };",
    "/ { a = \"\\u{d800}\"; };",
    "/ { a = \"\\u{}\"; };",
    "/ { a = \"\\u{0000041}\"; };",
    "/ { a = \"\\b\\f\\r\\t\\/\"; };",
    "/ { a { b; }; c; };",
    "/ { a; b { c; }; d { e; }; }; &x { y { z; }; };",
    "/ { /dts-v1/; };",
    "/ {};",
    "  /  {} ; ",
    "/ { };",
    "/ {\n};",
    "/ {}",
    "/ {} ;x",
    "/dts-v1/;/ {};",
    "/dts-v1/; /dts-v1/;\n",
    "/dts-v1/",
    "a {}; b {}; c {};",
    "a { b { c { d {}; }; }; };",
    "a { b { c { d {}; }; };",
    "a { b {}; c = ; }; / {};",
    "l: n {};",
    "l : n {};",
    "l:n{};",
    "l: m: n {};",
    "&r { x; };",
    "& r { x; };",
    "n@10 {};",
    "n@1g {};",
    "n@ {};",
    "n@ffffffffffffffffff {};",
    "/ { a; b = 1; c = <1 2>, \"x\", Y, &z, (A|B); };",
    "/ { a = ; };",
    "/ { a = 1 };",
    "/ { a = 1,; };",
    "/ { a = 1 , 2 ; };",
    "/ { a = <>; };",
    "/ { a = < >; };",
    "/ { a = <1 >; };",
    "/ { a = < 1>; };",
    "/ { a = <1,2>; };",
    "/ { a = <\"x\">; };",
    "/ { a = <<1>>; };",
    "/ { a = (1 + 2) * 3; };",
    "/ { a = (A); };",
    "/ { a = ( A ); };",
    "/ { a = (A B); };",
    "/ { a = (A + ); };",
    "/ { a = (A || B && C << 2 | D & E ^ F * G / H + I - J % K); };",
    "/ { a = (A (B) (C (D))); };",
    "/ { a = (&A + &B); };",
    "/ { a = (A&B); };",
    "/ { a = (A&&B); };",
    "/ { a = (A &&& B); };",
    "/ { a = ((A)); };",
    "/ { a = (); };",
    "/ { a = 0x; };",
    "/ { a = 0x1G; };",
    "/ { a = 18446744073709551615, 18446744073709551616; };",
    "/ { a = \"q\\\"q\\\\q\\n\\u{41}\\  \n q\"; };",
    "/ { a = \"open; };",
    "/ { a = \"\\x\"; };",
    "/ { #a-b,c.d = \"e\"; };",
    "/ { a,b; };",
    "/ { a-b; c.d; };",
    "// c\n/ {}; /* d */ # 1 \"f\"\n#include <g>\n",
    "// c\r\n/ {};",
    "// c\r/ {};",
    "/* open / {};",
    "# 1\n",
    "#include\n/ {};",
];

#[test]
fn documents_as_the_combinators_read_them() {
    for document in DOCUMENTS {
        let ours = tree(document).map(|(_, forest)| format!("{forest:?}"));
        let theirs = expected(document).map(|forest| format!("{forest:?}"));
        assert_eq!(ours, theirs, "{document:?}");
    }
}
