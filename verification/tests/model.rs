use kiops::dts::{Address, NodeName, Path, Prop, Symbol, Value};

fn symbol(name: &str) -> Symbol {
    Symbol(name.into())
}

fn plain(name: &str) -> NodeName {
    NodeName::Symbol(symbol(name), None)
}

#[test]
fn root_and_reference_names() {
    assert!(plain("").is_root());
    assert!(!plain("a").is_root());
    assert!(!NodeName::Symbol(symbol(""), Some(Address(0))).is_root());
    assert!(NodeName::Reference(symbol("a")).is_reference());
    assert!(!NodeName::Reference(symbol("")).is_root());
    assert!(!plain("a").is_reference());
}

#[test]
fn joining_paths() {
    let root = Path::root();
    assert!(root.is_root());
    assert_eq!(root.len(), 1);
    let ab = Path::root().join(vec![plain("a"), plain("b")]);
    assert_eq!(ab.len(), 3);
    assert_eq!(ab.to_text(), "/a/b");
    assert!(!ab.is_root());
    assert!(!ab.is_reference());
    // a reference or the root among the names starts the path anew
    let reset = ab.clone().join(vec![
        plain("c"),
        NodeName::Reference(symbol("l")),
        plain("d"),
    ]);
    assert_eq!(reset.to_text(), "&l/d");
    assert!(reset.is_reference());
    assert_eq!(ab.clone().join(vec![plain("")]), Path::root());
    assert_eq!(ab.clone().join(vec![]), ab);
}

#[test]
fn parents_and_splits() {
    let ab = Path::root().join(vec![plain("a"), plain("b")]);
    assert_eq!(ab.parent().to_text(), "/a");
    assert_eq!(ab.parent().parent().to_text(), "/");
    assert_eq!(Path::root().parent(), Path::root());
    let (first, rest) = ab.split();
    assert!(first.is_root());
    assert_eq!(rest, vec![plain("a"), plain("b")]);
    let (first, rest) = Path::reference(&symbol("l")).split();
    assert_eq!(first, NodeName::Reference(symbol("l")));
    assert!(rest.is_empty());
}

#[test]
fn segments_of_paths() {
    let ab = Path::root().join(vec![plain("a"), plain("b")]);
    assert!(ab.segment(0).is_root());
    assert_eq!(ab.segment(2), &plain("b"));
}

#[test]
fn order_of_paths_is_the_derived_order() {
    let samples = vec![
        Path::root(),
        Path::root().join(vec![plain("a")]),
        Path::root().join(vec![plain("a"), plain("b")]),
        Path::root().join(vec![plain("a"), plain("b"), plain("c")]),
        Path::root().join(vec![plain("a"), plain("d")]),
        Path::root().join(vec![plain("a-b")]),
        Path::root().join(vec![plain("aa")]),
        Path::root().join(vec![plain("b")]),
        Path::root().join(vec![NodeName::Symbol(symbol("b"), Some(Address(1)))]),
        Path::root().join(vec![NodeName::Symbol(symbol("b"), Some(Address(16)))]),
        Path::root().join(vec![plain("è")]),
        Path::root().join(vec![plain("\u{10000}")]),
        Path::reference(&symbol("a")),
        Path::reference(&symbol("a")).join(vec![plain("x")]),
        Path::reference(&symbol("b")),
    ];
    for (i, x) in samples.iter().enumerate() {
        for (j, y) in samples.iter().enumerate() {
            assert_eq!(x.before(y), x < y, "{x:?} before {y:?}");
            assert_eq!(x.before(y), i < j);
            assert_eq!(x.same(y), x == y);
            assert_eq!(x.same(y), i == j);
        }
    }
}

#[test]
fn order_of_symbols_is_the_derived_order() {
    let samples = ["", "A", "B", "a", "a_", "ab", "b", "é", "\u{ffff}", "\u{10000}"];
    for x in samples {
        for y in samples {
            assert_eq!(symbol(x).before(&symbol(y)), x < y);
            assert_eq!(symbol(x).same(&symbol(y)), x == y);
        }
    }
}

#[test]
fn addresses_in_hexadecimal() {
    assert_eq!(Address(0).to_text(), "0x0");
    assert_eq!(Address(9).to_text(), "0x9");
    assert_eq!(Address(10).to_text(), "0xa");
    assert_eq!(Address(255).to_text(), "0xff");
    assert_eq!(Address(0xf802_0000).to_text(), "0xf8020000");
    assert_eq!(Address(u64::MAX).to_text(), "0xffffffffffffffff");
}

#[test]
fn names_and_paths_as_text() {
    assert_eq!(plain("uart").to_text(), "uart");
    assert_eq!(
        NodeName::Symbol(symbol("uart"), Some(Address(0x10))).to_text(),
        "uart@0x10"
    );
    assert_eq!(NodeName::Reference(symbol("l")).to_text(), "&l");
    assert_eq!(Path::root().to_text(), "/");
    assert_eq!(Path::reference(&symbol("l")).to_text(), "&l");
    assert_eq!(
        Path::reference(&symbol("l"))
            .join(vec![plain("a")])
            .to_text(),
        "&l/a"
    );
}

#[test]
fn values_and_props_as_text() {
    assert_eq!(Value::Symbol(symbol("S")).to_text(), "S");
    assert_eq!(Value::Reference(symbol("r")).to_text(), "&r");
    assert_eq!(Value::Address(Address(18)).to_text(), "0x12");
    assert_eq!(Value::Text("plain".into()).to_text(), "\"plain\"");
    assert_eq!(
        Value::Text("a \"b\" \\".into()).to_text(),
        "\"a \\\"b\\\" \\\""
    );
    assert_eq!(
        Value::Array(vec![
            Value::Address(Address(1)),
            Value::Reference(symbol("r")),
            Value::Symbol(symbol("S"))
        ])
        .to_text(),
        "<0x1 &r S>"
    );
    assert_eq!(Value::Array(vec![]).to_text(), "<>");
    assert_eq!(
        Value::Expr(vec![symbol("A"), symbol("B")]).to_text(),
        "(A, B)"
    );
    let flag = Prop {
        name: symbol("f"),
        value: vec![],
    };
    assert_eq!(flag.to_text(), "f = true");
    let one = Prop {
        name: symbol("p"),
        value: vec![Value::Address(Address(1))],
    };
    assert_eq!(one.to_text(), "p = 0x1");
    let two = Prop {
        name: symbol("p"),
        value: vec![Value::Address(Address(1)), Value::Text("t".into())],
    };
    assert_eq!(two.to_text(), "p = [0x1, \"t\"]");
}

#[test]
fn copies_are_equal() {
    let value = Value::Array(vec![
        Value::Expr(vec![symbol("A")]),
        Value::Text("t".into()),
    ]);
    assert_eq!(value.clone(), value);
    let path = Path::root().join(vec![plain("a")]);
    assert_eq!(path.clone(), path);
}
