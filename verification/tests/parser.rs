use kiops::dts::parser::{nodes, prop, prop_value, props, simple_value, tree};
use kiops::dts::syntax::SyntaxErrorKind;
use kiops::dts::{Address, NodeName, Prop, Symbol, Value};

#[test]
fn prop_test() {
    let input = "a = b, 12 ;";
    let output = prop(input);
    assert_eq!(
        output,
        Ok((
            "",
            Prop {
                name: Symbol("a".into()),
                value: [
                    Value::Symbol(Symbol("b".into())),
                    Value::Address(Address(12))
                ]
                .into()
            }
        ))
    )
}

#[test]
fn empty_prop_test() {
    let input = "a ; ";
    let output = prop(input);
    assert_eq!(
        output,
        Ok((
            "",
            Prop {
                name: Symbol("a".into()),
                value: [].into()
            }
        ))
    )
}

#[test]
fn array_test() {
    let input = "#size-cells = <0x12 10> ;";
    let output = prop(input);
    assert_eq!(
        output,
        Ok((
            "",
            Prop {
                name: Symbol("#size-cells".into()),
                value: [Value::Array(
                    [Value::Address(Address(18)), Value::Address(Address(10))].into()
                )]
                .into()
            }
        ))
    )
}

#[test]
fn props_test() {
    let input = "a = b, 12 ; x.y = 0x10;";
    let output = props(input);
    assert_eq!(
        output,
        Ok((
            "",
            [
                Prop {
                    name: Symbol("a".into()),
                    value: [
                        Value::Symbol(Symbol("b".into())),
                        Value::Address(Address(12))
                    ]
                    .into()
                },
                Prop {
                    name: Symbol("x.y".into()),
                    value: [Value::Address(Address(16))].into()
                }
            ]
            .into()
        ))
    )
}

#[test]
fn root_node_test() {
    let input = "  /  {} ; ";
    let output = nodes(input);
    match output {
        Ok(("", nodes)) if nodes.len() == 1 => (),
        wrong => {
            println!("{wrong:?}");
            panic!()
        }
    };
}

#[test]
fn real_node_test() {
    let input = r#"
        / {
            #address-cells = <0x01>;
            #size-cells = <0x01>;
            compatible = "microchip,sama5d27-wlsom1-ek", "microchip,sama5d27-wlsom1", "atmel,sama5d27", "atmel,sama5d2", "atmel,sama5";
            interrupt-parent = <&aic>;
            model = "Microchip SAMA5D27 WLSOM1 EK";
        };
        "#;
    let output = nodes(input);
    match output {
        Ok(("", nodes)) if nodes.len() == 1 => (),
        wrong => {
            println!("{wrong:?}");
            panic!()
        }
    };
}

#[test]
fn comment_preproc_test() {
    let input = r#"
// SPDX-License-Identifier: (GPL-2.0+ OR MIT)
/*
 * at91-sama5d27_wlsom1.dtsi - Device Tree file for SAMA5D27 WLSOM1
 *
 * Copyright (C) 2019 Microchip Technology Inc. and its subsidiaries
 *
 * Author: Nicolas Ferre <nicolas.ferre@microcihp.com>
 * Author: Eugen Hristev <eugen.hristev@microcihp.com>
 */
#include "sama5d2.dtsi"
#include "sama5d2-pinfunc.h"
#include <dt-bindings/gpio/gpio.h>
#include <dt-bindings/mfd/atmel-flexcom.h>
#include <dt-bindings/pinctrl/at91.h>

/ {};

        "#;
    let output = tree(input);
    match output {
        Ok(("", nodes)) if nodes.len() == 1 => (),
        wrong => {
            println!("{wrong:?}");
            panic!()
        }
    };
}

fn symbol(name: &str) -> Symbol {
    Symbol(name.into())
}

#[test]
fn end_to_end_parse_example() {
    let input = "/ {\n    #address-cells = <0x01>;\n    compatible = \"a\",\"b\";\n};\n";
    let (rest, forest) = tree(input).unwrap();
    assert_eq!(rest, "");
    assert_eq!(forest.len(), 1);
    let root = &forest[0];
    assert!(root.name.is_root());
    assert!(root.labels.is_empty());
    assert!(root.nodes.is_empty());
    assert_eq!(
        root.props,
        vec![
            Prop {
                name: symbol("#address-cells"),
                value: vec![Value::Array(vec![Value::Address(Address(1))])],
            },
            Prop {
                name: symbol("compatible"),
                value: vec![Value::Text("a".into()), Value::Text("b".into())],
            },
        ]
    );
}

#[test]
fn empty_document_is_an_empty_forest() {
    let (rest, forest) = tree("").unwrap();
    assert_eq!(rest, "");
    assert!(forest.is_empty());
}

#[test]
fn filler_alone_is_an_empty_forest() {
    let (rest, forest) = tree("  \n// nothing here\n/* at all */\n").unwrap();
    assert_eq!(rest, "");
    assert!(forest.is_empty());
}

#[test]
fn what_is_no_item_is_left_over() {
    let error = tree("  what").unwrap_err();
    assert_eq!(error.kind, SyntaxErrorKind::TrailingInput);
    assert_eq!(error.offset, 0);
    assert_eq!(error.excerpt, "  what");
}

#[test]
fn version_marker_gives_nothing() {
    let (rest, forest) = tree("/dts-v1/;\n/ {};\n").unwrap();
    assert_eq!(rest, "");
    assert_eq!(forest.len(), 1);
}

#[test]
fn unclosed_block_is_fatal() {
    let input = "/ { a { x = <1>; ";
    let error = tree(input).unwrap_err();
    assert_eq!(error.kind, SyntaxErrorKind::MissingClosingBrace);
    assert_eq!(error.offset, input.len());
    assert_eq!(error.excerpt, "");
    assert_eq!(error.context(), vec![String::from("expected closing brace")]);
}

#[test]
fn unclosed_block_stops_later_items_too() {
    let input = "a { b {}; c = ; }; / {};";
    let error = tree(input).unwrap_err();
    assert_eq!(error.kind, SyntaxErrorKind::MissingClosingBrace);
    assert_eq!(error.offset, 10);
    assert_eq!(error.excerpt, "c = ; }; / {};");
}

#[test]
fn filler_belongs_to_items() {
    // a block without items holds no filler either
    assert!(tree("/ {};").is_ok());
    let error = tree("/ { };").unwrap_err();
    assert_eq!(error.kind, SyntaxErrorKind::MissingClosingBrace);
    assert_eq!(error.offset, 3);
    assert!(tree("/ { a; };").is_ok());
    assert!(tree("/ { a {}; };").is_ok());
}

#[test]
fn trailing_input_is_reported_where_the_items_end() {
    let input = "/ {}; what";
    let error = tree(input).unwrap_err();
    assert_eq!(error.kind, SyntaxErrorKind::TrailingInput);
    assert_eq!(error.offset, 6);
    assert_eq!(error.excerpt, "what");
    assert_eq!(error.context(), vec![String::from("expected end of input")]);
    assert_eq!(
        error.to_text(),
        "syntax error at character 6: expected end of input, found: what"
    );
}

#[test]
fn missing_semicolon_leaves_the_node_over() {
    let error = tree("/ {}").unwrap_err();
    assert_eq!(error.kind, SyntaxErrorKind::TrailingInput);
    assert_eq!(error.offset, 0);
}

#[test]
fn excerpt_is_cut_after_160_characters() {
    let mut input = String::from("/ {}; ");
    for _ in 0..50 {
        input.push_str("è234567890");
    }
    let error = tree(&input).unwrap_err();
    assert_eq!(error.offset, 6);
    assert_eq!(error.excerpt.chars().count(), 160);
    assert!(input[6..].starts_with(error.excerpt.as_str()));
}

#[test]
fn prop_that_does_not_match() {
    let error = prop("= 1;").unwrap_err();
    assert_eq!(error.kind, SyntaxErrorKind::NoMatch);
    assert_eq!(error.offset, 0);
    assert_eq!(error.excerpt, "= 1;");
    assert_eq!(error.context(), vec![String::from("no match")]);
}

#[test]
fn prop_hands_out_the_rest() {
    let (rest, found) = prop("a;b;").unwrap();
    assert_eq!(rest, "b;");
    assert_eq!(found.name, symbol("a"));
}

#[test]
fn hexadecimal_and_decimal_numbers() {
    assert_eq!(
        simple_value("0xFf rest"),
        Ok((" rest", Value::Address(Address(255))))
    );
    assert_eq!(simple_value("42"), Ok(("", Value::Address(Address(42)))));
    assert_eq!(
        simple_value("18446744073709551615"),
        Ok(("", Value::Address(Address(u64::MAX))))
    );
    assert_eq!(
        simple_value("0xffffffffffffffff"),
        Ok(("", Value::Address(Address(u64::MAX))))
    );
}

#[test]
fn numbers_that_do_not_fit() {
    assert!(simple_value("18446744073709551616").is_err());
    // the hexadecimal form fails, the decimal form takes the leading zero
    assert_eq!(
        simple_value("0x10000000000000000"),
        Ok(("x10000000000000000", Value::Address(Address(0))))
    );
}

#[test]
fn references_and_symbols() {
    assert_eq!(
        simple_value("&uart0>"),
        Ok((">", Value::Reference(symbol("uart0"))))
    );
    assert_eq!(
        simple_value("PIN_PA1,"),
        Ok((",", Value::Symbol(symbol("PIN_PA1"))))
    );
}

#[test]
fn expression_keeps_operands_only() {
    assert_eq!(
        simple_value("(A | (B << 2) | &c + 0x10 (D))"),
        Ok((
            "",
            Value::Expr(vec![symbol("A"), symbol("B"), symbol("c"), symbol("D")])
        ))
    );
    assert_eq!(
        simple_value("( A || A )"),
        Ok(("", Value::Expr(vec![symbol("A"), symbol("A")])))
    );
    assert_eq!(simple_value("(1)"), Ok(("", Value::Expr(vec![]))));
}

#[test]
fn quoted_text_with_escapes() {
    assert_eq!(
        prop_value(r#""a\"b\\c\n\u{e8}\ 
   d" x"#),
        Ok((" x", Value::Text("a\"b\\c\n\u{e8}d".into())))
    );
    assert_eq!(prop_value("\"\""), Ok(("", Value::Text(String::new()))));
}

#[test]
fn quoted_text_that_is_not_closed() {
    assert!(prop_value("\"abc").is_err());
    assert!(prop_value("\"a\\qb\"").is_err());
    assert!(prop_value("\"\\u{d800}\"").is_err());
    assert!(prop_value("\"\\u{1234567}\"").is_err());
}

#[test]
fn array_cells() {
    assert_eq!(
        prop_value("<&a 1 B (C)>"),
        Ok((
            "",
            Value::Array(vec![
                Value::Reference(symbol("a")),
                Value::Address(Address(1)),
                Value::Symbol(symbol("B")),
                Value::Expr(vec![symbol("C")]),
            ])
        ))
    );
    assert_eq!(prop_value("<>"), Ok(("", Value::Array(vec![]))));
    assert!(prop_value("< >").is_err());
}

#[test]
fn node_names_labels_and_addresses() {
    let (rest, forest) = nodes("l1: uart@f8020000 { u-boot,dm-pre-reloc; }; 12").unwrap();
    assert_eq!(rest, "12");
    assert_eq!(forest.len(), 1);
    assert_eq!(forest[0].labels, vec![symbol("l1")]);
    assert_eq!(
        forest[0].name,
        NodeName::Symbol(symbol("uart"), Some(Address(0xf802_0000)))
    );
    assert_eq!(
        forest[0].props,
        vec![Prop {
            name: symbol("u-boot,dm-pre-reloc"),
            value: vec![]
        }]
    );
}

#[test]
fn nested_nodes_without_blank_blocks() {
    let (_, forest) = tree("/ { a { b {}; c {}; }; }; &x { y; };").unwrap();
    assert_eq!(forest.len(), 2);
    assert_eq!(forest[0].nodes.len(), 1);
    assert_eq!(forest[0].nodes[0].nodes.len(), 2);
    assert_eq!(forest[1].name, NodeName::Reference(symbol("x")));
}

#[test]
fn comments_and_preprocessor_lines_are_filler() {
    let input = "/* one */ // two\n#include <x.h>\n# 1 \"file\"\n/ { /* in */ a = <1>; // end\n};";
    let (_, forest) = tree(input).unwrap();
    assert_eq!(forest.len(), 1);
    assert_eq!(forest[0].props.len(), 1);
}

#[test]
fn comment_with_a_lone_carriage_return_is_no_filler() {
    assert!(tree("// a\rb\n/ {};").is_err());
    assert!(tree("// a\r\n/ {};").is_ok());
    assert!(tree("/* never closed / {};").is_err());
}

#[test]
fn names_may_hold_letters_of_any_script() {
    let (rest, found) = prop("été٣ = ñ_1;").unwrap();
    assert_eq!(rest, "");
    assert_eq!(found.name, symbol("été٣"));
    assert_eq!(found.value, vec![Value::Symbol(symbol("ñ_1"))]);
    // a digit does not start a name, in any script
    assert!(prop("٣a;").is_err());
    assert!(prop("1a;").is_err());
    // symbols may hold what identifiers may not
    assert_eq!(prop("#a-b.c,d;").unwrap().1.name, symbol("#a-b.c,d"));
    assert_eq!(
        simple_value("a-b"),
        Ok(("-b", Value::Symbol(symbol("a"))))
    );
}
