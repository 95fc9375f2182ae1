use kiops::dts::analysis::{Analysis, Diagnostic, LabelView, Xref};
use kiops::dts::parser::tree;
use kiops::dts::report::analyse_sources;
use kiops::dts::syntax::SyntaxErrorKind;
use kiops::dts::{Address, NodeName, Path, Prop, Symbol, Value};

fn symbol(name: &str) -> Symbol {
    Symbol(name.into())
}

/// The path that `text` writes: segments after a leading `/` or `&label`.
fn path(text: &str) -> Path {
    let mut parts = text.split('/');
    let head = parts.next().unwrap();
    let start = if head.is_empty() {
        Path::root()
    } else {
        Path::reference(&symbol(head.strip_prefix('&').unwrap()))
    };
    let rest: Vec<NodeName> = parts
        .filter(|p| !p.is_empty())
        .map(|p| NodeName::Symbol(symbol(p), None))
        .collect();
    start.join(rest)
}

fn analyse(source: &str) -> Analysis {
    let (_, forest) = tree(source).unwrap();
    Analysis::new(forest)
}

fn stored_paths(analysis: &Analysis) -> Vec<String> {
    (0..analysis.node_count())
        .map(|i| analysis.entry(i).0.to_text())
        .collect()
}

fn texts(paths: &[Path]) -> Vec<String> {
    paths.iter().map(|p| p.to_text()).collect()
}

#[test]
fn merge_round_trip() {
    let analysis = analyse("/ { a: n1 {}; }; &a { x = <1>; };");
    assert_eq!(stored_paths(&analysis), vec!["/", "/n1"]);
    let node = analysis.node_at(&path("/n1")).unwrap();
    assert_eq!(node.labels, vec![symbol("a")]);
    assert_eq!(
        node.props,
        vec![Prop {
            name: symbol("x"),
            value: vec![Value::Array(vec![Value::Address(Address(1))])],
        }]
    );
    assert!(node.nodes.is_empty());
    for i in 0..analysis.node_count() {
        assert!(!analysis.entry(i).0.is_reference());
    }
    assert!(analysis.diagnostics().is_empty());
}

#[test]
fn fragment_for_an_undefined_label_stays_where_it_is() {
    let analysis = analyse("/ { a: n1 {}; }; &n1 { x = <1>; };");
    assert_eq!(stored_paths(&analysis), vec!["/", "/n1", "&n1"]);
    assert!(analysis.node_at(&path("/n1")).unwrap().props.is_empty());
    assert_eq!(analysis.node_at(&path("&n1")).unwrap().props.len(), 1);
    assert_eq!(
        analysis.diagnostics(),
        &vec![Diagnostic::UndefinedLabel {
            label: symbol("n1")
        }]
    );
}

#[test]
fn fragments_bring_their_children() {
    let analysis = analyse("/ { soc { u: uart {}; }; }; &u { status = \"okay\"; child { v; }; };");
    assert_eq!(
        stored_paths(&analysis),
        vec!["/", "/soc", "/soc/uart", "/soc/uart/child"]
    );
    assert_eq!(analysis.node_at(&path("&u/child")).unwrap().props.len(), 1);
    assert_eq!(analysis.absolute(path("&u/child")).to_text(), "/soc/uart/child");
}

#[test]
fn repeated_paths_keep_all_properties_in_order() {
    let analysis = analyse("/ { n { a; }; }; / { x: n { b; a = <2>; }; };");
    let node = analysis.node_at(&path("/n")).unwrap();
    let names: Vec<String> = node.props.iter().map(|p| p.name.to_text()).collect();
    assert_eq!(names, vec!["a", "b", "a"]);
    assert_eq!(node.labels, vec![symbol("x")]);
}

#[test]
fn label_conflict_is_reported_and_the_last_wins() {
    let analysis = analyse("a { x: n {}; }; b { x: m {}; };");
    assert_eq!(
        analysis.diagnostics(),
        &vec![Diagnostic::Conflict {
            label: symbol("x"),
            path: path("/b/m"),
            conflict: path("/a/n"),
        }]
    );
    assert_eq!(analysis.label_path(&symbol("x")), Some(&path("/b/m")));
    assert_eq!(analysis.label_count(), 1);
}

#[test]
fn label_given_twice_to_one_node_is_no_conflict() {
    let analysis = analyse("/ { x: n {}; }; / { x: n {}; };");
    assert!(analysis.diagnostics().is_empty());
    assert_eq!(analysis.label_path(&symbol("x")), Some(&path("/n")));
}

#[test]
fn children_are_the_descendants() {
    let analysis = analyse("/ { a { b { c {}; }; d {}; }; e {}; };");
    let below = |p: &str| -> Vec<String> {
        analysis
            .children(&path(p))
            .iter()
            .map(|(path, _)| path.to_text())
            .collect()
    };
    assert_eq!(below("/a"), vec!["/a/b", "/a/b/c", "/a/d"]);
    assert_eq!(below("/a/b"), vec!["/a/b/c"]);
    assert_eq!(below("/a/d"), Vec::<String>::new());
    assert_eq!(below("/"), vec!["/a", "/a/b", "/a/b/c", "/a/d", "/e"]);
    assert_eq!(below("/zz"), Vec::<String>::new());
}

#[test]
fn dependents_of_a_linear_chain() {
    let analysis = analyse("/ { c: nc {}; b: nb { r = <&c>; }; a: na { r = <&b>; }; };");
    assert_eq!(
        texts(&analysis.dependents(&path("/nc"))),
        vec!["/na", "/nb"]
    );
    assert_eq!(texts(&analysis.dependents(&path("/nb"))), vec!["/na"]);
    assert!(analysis.dependents(&path("/na")).is_empty());
    assert_eq!(
        analysis.direct_dependents(&path("/nc")),
        Some(&vec![path("/nb")])
    );
}

#[test]
fn dependents_occur_once_for_each_chain() {
    let analysis = analyse(
        "/ { c: nc {}; a: na { r = <&c>; }; b: nb { r = <&c>; }; d: nd { r = <&a &b>; }; };",
    );
    assert_eq!(
        texts(&analysis.dependents(&path("/nc"))),
        vec!["/nd", "/na", "/nd", "/nb"]
    );
    let analysis = analyse(
        "/ { c: nc {}; a: na { r = <&c &b>; }; b: nb { r = <&c>; }; d: nd { r = <&a &b>; }; };",
    );
    assert_eq!(
        analysis.direct_dependents(&path("/nb")),
        Some(&vec![path("/na"), path("/nd")])
    );
    assert_eq!(
        texts(&analysis.dependents(&path("/nc"))),
        vec!["/nd", "/na", "/nd", "/na", "/nd", "/nb"]
    );
}

#[test]
fn dependents_of_a_circle_end() {
    let analysis = analyse("/ { a: na { r = <&b>; }; b: nb { r = <&a>; }; };");
    assert_eq!(texts(&analysis.dependents(&path("/na"))), vec!["/na", "/nb"]);
}

#[test]
fn labels_in_a_circle_are_reported() {
    let analysis = analyse("&a { a: x {}; };");
    assert_eq!(stored_paths(&analysis), vec!["&a", "&a/x"]);
    assert_eq!(
        analysis.diagnostics(),
        &vec![
            Diagnostic::CyclicLabel { label: symbol("a") },
            Diagnostic::CyclicLabel { label: symbol("a") }
        ]
    );
    let (same, report) = analysis.resolve(path("&a/y"));
    assert_eq!(same, path("&a/y"));
    assert_eq!(report, Some(Diagnostic::CyclicLabel { label: symbol("a") }));
}

#[test]
fn labels_that_lead_through_labels_resolve() {
    let analysis = analyse("/ { r: top {}; }; &r { s: mid {}; }; &s { leaf {}; };");
    assert_eq!(
        stored_paths(&analysis),
        vec!["/", "/top", "/top/mid", "/top/mid/leaf"]
    );
    assert_eq!(analysis.label_path(&symbol("s")), Some(&path("&r/mid")));
    assert_eq!(analysis.absolute(path("&s")).to_text(), "/top/mid");
    assert!(analysis.diagnostics().is_empty());
}

#[test]
fn every_stored_path_is_its_own_absolute_form() {
    let analysis = analyse(
        "/ { r: top {}; }; &r { s: mid {}; }; &s { leaf {}; }; &gone { x {}; }; &a { a: y {}; };",
    );
    for i in 0..analysis.node_count() {
        let stored = analysis.entry(i).0;
        assert_eq!(&analysis.absolute(stored.clone()), stored);
        if stored.is_reference() {
            assert!(analysis.resolve(stored.clone()).1.is_some());
        }
    }
    assert_eq!(
        stored_paths(&analysis),
        vec![
            "/",
            "/top",
            "/top/mid",
            "/top/mid/leaf",
            "&a",
            "&a/y",
            "&gone",
            "&gone/x"
        ]
    );
}

#[test]
fn resolve_reports_what_is_undefined() {
    let analysis = analyse("/ { l: n {}; };");
    assert_eq!(analysis.resolve(path("&l/x")), (path("/n/x"), None));
    assert_eq!(
        analysis.resolve(path("&nope/x")),
        (
            path("&nope/x"),
            Some(Diagnostic::UndefinedLabel {
                label: symbol("nope")
            })
        )
    );
    assert_eq!(analysis.resolve(path("/a")), (path("/a"), None));
}

#[test]
fn analysing_twice_gives_the_same() {
    let source = "/ { l: n { p = <&m>, X; }; m: k { q = (A | B); }; }; &l { z = &m; }; &u { };";
    let source = source.replace("{ }", "{}");
    let one = analyse(&source);
    let two = analyse(&source);
    assert_eq!(one.to_text(), two.to_text());
    assert_eq!(one.diagnostics(), two.diagnostics());
    assert_eq!(
        LabelView::new(&one).to_text(),
        LabelView::new(&two).to_text()
    );
}

const SAMPLE: &str = "/ { l: n { p = <&m>, \"t\", S; f; }; m: k@10 { q = (A | B); }; };";

#[test]
fn full_dump() {
    let analysis = analyse(SAMPLE);
    assert_eq!(
        analysis.to_text(),
        "Nodes\n/\n/k@0x10\n  m:\n    q = (A, B)\n/n\n  l:\n    p = [<&m>, \"t\", S]\n    f = true\n\
         Labels\nl: /n\nm: /k@0x10\n\
         Dependents\n/k@0x10\n    /n\n\
         Symbols\nA => /k@0x10\nB => /k@0x10\nS => /n\n"
    );
}

#[test]
fn symbols_are_indexed_but_are_no_dependencies() {
    let analysis = analyse(SAMPLE);
    assert_eq!(analysis.symbol_count(), 3);
    let (name, users) = analysis.symbol_entry(0);
    assert_eq!(name, &symbol("A"));
    assert_eq!(users.len(), 1);
    assert_eq!(users[0].to_text(), "/k@0x10");
    assert_eq!(analysis.direct_dependents(&path("/n")), None);
    assert!(analysis.dependents(&path("/n")).is_empty());
}

#[test]
fn node_at_follows_references() {
    let analysis = analyse(SAMPLE);
    let node = analysis.node_at(&Path::reference(&symbol("m"))).unwrap();
    assert_eq!(
        node.name,
        NodeName::Symbol(symbol("k"), Some(Address(16)))
    );
    assert!(analysis.node_at(&path("/missing")).is_none());
    assert!(analysis.node_at(&path("&missing")).is_none());
}

#[test]
fn label_outline() {
    let analysis = analyse("/ { top: n { in_1: c { v; }; d {}; }; };");
    assert_eq!(
        LabelView::new(&analysis).to_text(),
        "## in_1\n/n/c\n  in_1:\n    v = true\n## top\n/n\n  top:\n/n/c [&in_1](#in1)\n/n/d\n"
    );
}

#[test]
fn cross_reference_by_least_symbol() {
    let analysis = analyse(
        "/ { a { p = <PIN_B PIN_A X>; }; b { q = PIN_A, (PIN_A | Y); }; c { r = Y; }; z { s = PIN_0; }; };",
    );
    let xref = Xref::new(&analysis, |s| s.starts_with("PIN_"));
    let rows: Vec<(String, Vec<String>, String)> = xref
        .0
        .iter()
        .map(|sa| {
            (
                sa.first.to_text(),
                sa.others.iter().map(|s| s.to_text()).collect(),
                sa.path.to_text(),
            )
        })
        .collect();
    assert_eq!(
        rows,
        vec![
            ("PIN_0".to_string(), vec![], "/z".to_string()),
            (
                "PIN_A".to_string(),
                vec!["PIN_B".to_string()],
                "/a".to_string()
            ),
            ("PIN_A".to_string(), vec![], "/b".to_string()),
        ]
    );
    assert_eq!(
        xref.to_text(),
        "PIN_0\n    /z\n        s = PIN_0\n\n\
         PIN_A, PIN_B\n    /a\n        p = <PIN_B PIN_A X>\n\n\
         PIN_A\n    /b\n        q = [PIN_A, (PIN_A, Y)]\n\n"
    );
}

#[test]
fn cross_reference_by_verdicts() {
    let analysis = analyse("/ { a { p = X, Y; }; b { q = Z; }; };");
    // entries in path order: "/", "/a", "/b"
    let xref = Xref::select(&analysis, &vec![vec![], vec![false, true], vec![true]]);
    assert_eq!(xref.0.len(), 2);
    assert_eq!(xref.0[0].first, symbol("Y"));
    assert_eq!(xref.0[1].first, symbol("Z"));
    let none = Xref::select(&analysis, &vec![]);
    assert!(none.0.is_empty());
    assert_eq!(none.to_text(), "");
}

#[test]
fn stored_nodes_are_flat_and_have_their_parents() {
    let analysis = analyse(
        "a { b { c {}; }; }; / { r: top { x {}; }; }; &r { s: mid { y {}; }; }; &gone { z { w {}; }; };",
    );
    assert_eq!(
        stored_paths(&analysis),
        vec![
            "/",
            "/a",
            "/a/b",
            "/a/b/c",
            "/top",
            "/top/mid",
            "/top/mid/y",
            "/top/x",
            "&gone",
            "&gone/z",
            "&gone/z/w"
        ]
    );
    for i in 0..analysis.node_count() {
        let (path, node) = analysis.entry(i);
        assert!(node.nodes.is_empty());
        if path.len() > 1 {
            assert!(analysis.node_at(&path.parent()).is_some() || path.parent().is_root());
        }
        if i > 0 {
            assert!(analysis.entry(i - 1).0.before(path));
        }
    }
}

#[test]
fn top_level_nodes_without_a_declared_root() {
    let analysis = analyse("a { b {}; }; c {};");
    assert_eq!(stored_paths(&analysis), vec!["/a", "/a/b", "/c"]);
    assert!(analysis.node_at(&Path::root()).is_none());
    assert!(analysis.children(&Path::root()).is_empty());
    assert_eq!(analysis.children(&path("/a")).len(), 1);
}

#[test]
fn sources_analysed_as_one() {
    let sources = vec![
        String::from("/ { a: n { x; }; };"),
        String::from("  // nothing\n"),
        String::from("&a { y; };"),
    ];
    let analysis = analyse_sources(&sources).unwrap();
    assert_eq!(stored_paths(&analysis), vec!["/", "/n"]);
    assert_eq!(analysis.node_at(&path("/n")).unwrap().props.len(), 2);
    assert_eq!(
        analysis.to_text(),
        analyse("/ { a: n { x; }; }; &a { y; };").to_text()
    );
    assert_eq!(
        analyse_sources(&vec![]).unwrap().to_text(),
        "Nodes\nLabels\nDependents\nSymbols\n"
    );
}

#[test]
fn first_source_that_is_no_document_ends_the_work() {
    let sources = vec![
        String::from("/ {};"),
        String::from("/ { a { };"),
        String::from("also wrong"),
    ];
    let (at, error) = analyse_sources(&sources).unwrap_err();
    assert_eq!(at, 1);
    assert_eq!(error.kind, SyntaxErrorKind::MissingClosingBrace);
    assert_eq!(error.offset, 7);
    assert_eq!(error.excerpt, " };");
}
