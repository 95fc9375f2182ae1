use kiops::dts::analysis::{
    fmt_path_node, refs_in_node, symbols_in_node, Analysis, Diagnostic,
};
use kiops::dts::lexer::{
    read_dec, read_hex, read_identifier, read_label, read_literal, read_reference, read_symbol,
    read_text, skip_spacing,
};
use kiops::dts::parser::{dependents, flatten, tree};
use kiops::dts::render::fmt_delimited;
use kiops::dts::table::Table;
use kiops::dts::text::{
    chars_of, ident_char, ident_initial_char, string_of, symbol_char, symbol_initial_char, text_lt,
};
use kiops::dts::{Address, Node, NodeName, Path, Prop, Symbol, Value};

fn symbol(name: &str) -> Symbol {
    Symbol(name.into())
}

fn chars(text: &str) -> Vec<char> {
    text.chars().collect()
}

#[test]
fn characters_of_names() {
    for c in ['a', 'Z', 'é', '_', '$'] {
        assert!(symbol_initial_char(c) && symbol_char(c), "{c}");
        assert!(ident_initial_char(c) && ident_char(c), "{c}");
    }
    assert!(symbol_initial_char('#') && !symbol_char('#'));
    assert!(!ident_initial_char('#') && !ident_char('#'));
    for c in ['-', '.', ','] {
        assert!(!symbol_initial_char(c) && symbol_char(c), "{c}");
        assert!(!ident_initial_char(c) && !ident_char(c), "{c}");
    }
    for c in ['0', '9', '٣'] {
        assert!(!symbol_initial_char(c) && symbol_char(c), "{c}");
        assert!(!ident_initial_char(c) && ident_char(c), "{c}");
    }
    for c in [' ', '@', '&', '/', '{', ';', '=', '"', '💝'] {
        assert!(!symbol_initial_char(c) && !symbol_char(c), "{c}");
        assert!(!ident_initial_char(c) && !ident_char(c), "{c}");
    }
}

#[test]
fn texts_as_characters() {
    assert_eq!(chars_of("aé💝"), vec!['a', 'é', '💝']);
    assert_eq!(chars_of(""), Vec::<char>::new());
    let s = chars("héllo");
    assert_eq!(string_of(&s, 1, 4), "éll");
    assert_eq!(string_of(&s, 2, 2), "");
    assert_eq!(string_of(&s, 0, 5), "héllo");
    assert!(text_lt("", "a"));
    assert!(text_lt("a", "ab"));
    assert!(text_lt("ab", "b"));
    assert!(text_lt("Z", "a"));
    assert!(text_lt("\u{ffff}", "\u{10000}"));
    assert!(!text_lt("a", "a"));
    assert!(!text_lt("b", "ab"));
}

#[test]
fn words_at_a_position() {
    let s = chars("  l1: &ref #cells,x 0x1F 077 \"q\"");
    assert_eq!(skip_spacing(&s, 0), 2);
    assert_eq!(read_label(&s, 2), Some((symbol("l1"), 5)));
    assert_eq!(read_identifier(&s, 2), Some((symbol("l1"), 4)));
    assert_eq!(read_label(&s, 7), None);
    assert_eq!(read_reference(&s, 6), Some((symbol("ref"), 10)));
    assert_eq!(read_reference(&s, 7), None);
    assert_eq!(read_symbol(&s, 11), Some((symbol("#cells,x"), 19)));
    assert_eq!(read_identifier(&s, 11), None);
    assert_eq!(read_literal(&s, 20), Some((Address(31), 24)));
    assert_eq!(read_dec(&s, 20), Some((Address(0), 21)));
    assert_eq!(read_hex(&s, 22), Some((Address(31), 24)));
    assert_eq!(read_literal(&s, 25), Some((Address(77), 28)));
    assert_eq!(read_hex(&s, 25), Some((Address(0x77), 28)));
    assert_eq!(read_text(&s, 29), Some((String::from("q"), 32)));
    assert_eq!(read_text(&s, 30), None);
    assert_eq!(read_symbol(&s, 32), None);
    assert_eq!(skip_spacing(&s, 32), 32);
}

#[test]
fn operands_of_values() {
    assert_eq!(dependents(Value::Symbol(symbol("a"))), vec![symbol("a")]);
    assert_eq!(dependents(Value::Reference(symbol("r"))), vec![symbol("r")]);
    assert_eq!(
        dependents(Value::Expr(vec![symbol("x"), symbol("y")])),
        vec![symbol("x"), symbol("y")]
    );
    assert!(dependents(Value::Address(Address(1))).is_empty());
    assert!(dependents(Value::Text("t".into())).is_empty());
    assert!(dependents(Value::Array(vec![Value::Symbol(symbol("a"))])).is_empty());
    assert_eq!(
        flatten(
            vec![symbol("a")],
            vec![vec![], vec![symbol("b"), symbol("a")], vec![symbol("c")]]
        ),
        vec![symbol("a"), symbol("b"), symbol("a"), symbol("c")]
    );
    assert_eq!(flatten(vec![symbol("a")], vec![]), vec![symbol("a")]);
}

fn sample_node() -> Node {
    Node {
        labels: vec![symbol("l1"), symbol("l2")],
        name: NodeName::Symbol(symbol("n"), None),
        props: vec![
            Prop {
                name: symbol("p"),
                value: vec![
                    Value::Array(vec![
                        Value::Reference(symbol("r1")),
                        Value::Symbol(symbol("S1")),
                        Value::Expr(vec![symbol("E1")]),
                    ]),
                    Value::Reference(symbol("r2")),
                ],
            },
            Prop {
                name: symbol("q"),
                value: vec![
                    Value::Symbol(symbol("S2")),
                    Value::Expr(vec![symbol("E2"), symbol("S1")]),
                    Value::Text("&no S3".into()),
                    Value::Address(Address(1)),
                ],
            },
        ],
        nodes: vec![],
    }
}

#[test]
fn references_and_symbols_of_a_node() {
    let node = sample_node();
    assert_eq!(refs_in_node(&node), vec![symbol("r1"), symbol("r2")]);
    assert_eq!(
        symbols_in_node(&node),
        vec![
            symbol("S1"),
            symbol("E1"),
            symbol("S2"),
            symbol("E2"),
            symbol("S1")
        ]
    );
}

#[test]
fn node_under_its_path_as_text() {
    let node = sample_node();
    let path = Path::root().join(vec![node.name.clone()]);
    let mut out = String::from(">");
    fmt_path_node("..", &path, &node, &mut out);
    assert_eq!(
        out,
        ">../n\n..  l1, l2:\n..    p = [<&r1 S1 (E1)>, &r2]\n..    q = [S2, (E2, S1), \"&no S3\", 0x1]\n"
    );
    let bare = Node {
        labels: vec![],
        name: NodeName::Symbol(symbol("n"), None),
        props: vec![],
        nodes: vec![],
    };
    let mut out = String::new();
    fmt_path_node("", &path, &bare, &mut out);
    assert_eq!(out, "/n\n");
}

#[test]
fn items_between_delimiters() {
    let items = vec![String::from("a"), String::from("b"), String::from("c")];
    let mut out = String::from("x");
    fmt_delimited(&items, "<", ", ", ">", &mut out);
    assert_eq!(out, "x<a, b, c>");
    let mut out = String::new();
    fmt_delimited(&items[..1].to_vec(), "[", "; ", "]", &mut out);
    assert_eq!(out, "[a]");
    let mut out = String::new();
    fmt_delimited(&vec![], "(", ", ", ")", &mut out);
    assert_eq!(out, "()");
}

#[test]
fn diagnostics_as_text() {
    let at = |name: &str| Path::root().join(vec![NodeName::Symbol(symbol(name), None)]);
    assert_eq!(
        Diagnostic::Conflict {
            label: symbol("x"),
            path: at("b"),
            conflict: at("a"),
        }
        .to_text(),
        "Conflict: label x refers to /b and /a"
    );
    assert_eq!(
        Diagnostic::UndefinedLabel { label: symbol("u") }.to_text(),
        "Undefined label: u"
    );
    assert_eq!(
        Diagnostic::CyclicLabel { label: symbol("c") }.to_text(),
        "Cyclic label: c"
    );
}

#[test]
fn analysis_of_nothing() {
    let nothing = Analysis::default();
    assert_eq!(nothing.node_count(), 0);
    assert_eq!(nothing.label_count(), 0);
    assert_eq!(nothing.symbol_count(), 0);
    assert!(nothing.diagnostics().is_empty());
    assert_eq!(nothing.to_text(), "Nodes\nLabels\nDependents\nSymbols\n");
    assert_eq!(nothing.to_text(), Analysis::new(vec![]).to_text());
    assert!(nothing.node_at(&Path::root()).is_none());
    assert!(nothing.children(&Path::root()).is_empty());
    assert!(nothing.dependents(&Path::root()).is_empty());
}

#[test]
fn analysis_of_several_sources() {
    let mut forest = tree("/ { a: n { x; }; };").unwrap().1;
    forest.extend(tree("&a { y; };").unwrap().1);
    forest.extend(tree("&a { z = &a; };").unwrap().1);
    let analysis = Analysis::new(forest);
    assert_eq!(analysis.node_count(), 2);
    assert_eq!(
        analysis.to_text(),
        "Nodes\n/\n/n\n  a:\n    x = true\n    y = true\n    z = &a\n\
         Labels\na: /n\nDependents\n/n\n    /n\nSymbols\n"
    );
}

#[test]
fn sorted_table() {
    let mut table: Table<Symbol, u32> = Table::new();
    for (name, number) in [("m", 1), ("c", 2), ("x", 3), ("a", 4)] {
        match table.find(&symbol(name)) {
            Err(at) => table.insert(at, symbol(name), number),
            Ok(_) => panic!("{name} is new"),
        }
    }
    assert_eq!(table.len(), 4);
    let names: Vec<String> = (0..4).map(|i| table.key(i).to_text()).collect();
    assert_eq!(names, vec!["a", "c", "m", "x"]);
    assert_eq!(table.find(&symbol("m")), Ok(2));
    assert_eq!(table.find(&symbol("b")), Err(1));
    assert_eq!(table.find(&symbol("z")), Err(4));
    assert_eq!(table.value(2), &1);
    assert_eq!(table.replace(2, 10), 1);
    *table.value_mut(0) += 1;
    assert_eq!(table.remove(1), (symbol("c"), 2));
    assert_eq!(table.find(&symbol("m")), Ok(1));
    assert_eq!(table.value(0), &5);
    assert_eq!(table.value(1), &10);
    assert_eq!(table.into_keys(), vec![symbol("a"), symbol("m"), symbol("x")]);
}
