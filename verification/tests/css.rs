use dom::css::{
    declaration, declarations, parse, rule, rules, selectors, simple_selector, AttributeSelectorOp,
    CSSValue, Declaration, Rule, SimpleSelector, Stylesheet,
};
use dom::dom::{AttrMap, Element, Node, Text};
use dom::parse::ParseError;

fn sample() -> Box<Node> {
    let mut attributes = AttrMap::new();
    attributes.insert("id".to_string(), "test".to_string());
    attributes.insert("class".to_string(), "testclass".to_string());
    Element::new("p".to_string(), attributes, vec![])
}

fn with_class(value: &str) -> Box<Node> {
    let mut attributes = AttrMap::new();
    attributes.insert("class".to_string(), value.to_string());
    Element::new("p".to_string(), attributes, vec![])
}

fn decl(name: &str, value: &str) -> Declaration {
    Declaration {
        name: name.to_string(),
        value: CSSValue::Keyword(value.to_string()),
    }
}

fn attr_selector(tag: &str, op: AttributeSelectorOp, attribute: &str, value: &str) -> SimpleSelector {
    SimpleSelector::AttributeSelector {
        tag_name: tag.to_string(),
        op,
        attribute: attribute.to_string(),
        value: value.to_string(),
    }
}

#[test]
fn test_stylesheet() {
    assert_eq!(
        rules("test [foo=bar] { aa: bb; cc: dd } rule { ee: dd;  }"),
        Ok((
            vec![
                Rule {
                    selectors: vec![SimpleSelector::AttributeSelector {
                        tag_name: "test".to_string(),
                        attribute: "foo".to_string(),
                        op: AttributeSelectorOp::Eq,
                        value: "bar".to_string()
                    }],
                    declarations: vec![
                        Declaration {
                            name: "aa".to_string(),
                            value: CSSValue::Keyword("bb".to_string())
                        },
                        Declaration {
                            name: "cc".to_string(),
                            value: CSSValue::Keyword("dd".to_string()),
                        }
                    ]
                },
                Rule {
                    selectors: vec![SimpleSelector::TypeSelector {
                        tag_name: "rule".to_string(),
                    }],
                    declarations: vec![Declaration {
                        name: "ee".to_string(),
                        value: CSSValue::Keyword("dd".to_string())
                    }]
                },
            ],
            ""
        ))
    );
}

#[test]
fn test_rule() {
    assert_eq!(
        rule("test [foo=bar] {}"),
        Ok((
            Rule {
                selectors: vec![SimpleSelector::AttributeSelector {
                    tag_name: "test".to_string(),
                    attribute: "foo".to_string(),
                    op: AttributeSelectorOp::Eq,
                    value: "bar".to_string()
                }],
                declarations: vec![]
            },
            ""
        ))
    );

    assert_eq!(
        rule("test [foo=bar], testtest[piyo~=guoo] {}"),
        Ok((
            Rule {
                selectors: vec![
                    SimpleSelector::AttributeSelector {
                        tag_name: "test".to_string(),
                        attribute: "foo".to_string(),
                        op: AttributeSelectorOp::Eq,
                        value: "bar".to_string()
                    },
                    SimpleSelector::AttributeSelector {
                        tag_name: "testtest".to_string(),
                        attribute: "piyo".to_string(),
                        op: AttributeSelectorOp::Contain,
                        value: "guoo".to_string()
                    }
                ],
                declarations: vec![]
            },
            ""
        ))
    );

    assert_eq!(
        rule("test [foo=bar] { aa: bb; cc: dd; }"),
        Ok((
            Rule {
                selectors: vec![SimpleSelector::AttributeSelector {
                    tag_name: "test".to_string(),
                    attribute: "foo".to_string(),
                    op: AttributeSelectorOp::Eq,
                    value: "bar".to_string()
                }],
                declarations: vec![
                    Declaration {
                        name: "aa".to_string(),
                        value: CSSValue::Keyword("bb".to_string())
                    },
                    Declaration {
                        name: "cc".to_string(),
                        value: CSSValue::Keyword("dd".to_string()),
                    }
                ]
            },
            ""
        ))
    );
}

#[test]
fn test_declarations() {
    assert_eq!(
        declarations("foo: bar; piyo: piyopiyo;"),
        Ok((
            vec![
                Declaration {
                    name: "foo".to_string(),
                    value: CSSValue::Keyword("bar".to_string())
                },
                Declaration {
                    name: "piyo".to_string(),
                    value: CSSValue::Keyword("piyopiyo".to_string())
                }
            ],
            ""
        ))
    );
}

#[test]
fn test_selectors() {
    assert_eq!(
        selectors("test [foo=bar], a"),
        Ok((
            vec![
                SimpleSelector::AttributeSelector {
                    tag_name: "test".to_string(),
                    attribute: "foo".to_string(),
                    op: AttributeSelectorOp::Eq,
                    value: "bar".to_string()
                },
                SimpleSelector::TypeSelector {
                    tag_name: "a".to_string(),
                }
            ],
            ""
        ))
    );
}

#[test]
fn test_simple_selector() {
    assert_eq!(
        simple_selector("*"),
        Ok((SimpleSelector::UniversalSelector, ""))
    );

    assert_eq!(
        simple_selector("test"),
        Ok((
            SimpleSelector::TypeSelector {
                tag_name: "test".to_string(),
            },
            ""
        ))
    );

    assert_eq!(
        simple_selector("test [foo=bar]"),
        Ok((
            SimpleSelector::AttributeSelector {
                tag_name: "test".to_string(),
                attribute: "foo".to_string(),
                op: AttributeSelectorOp::Eq,
                value: "bar".to_string()
            },
            ""
        ))
    );

    assert_eq!(
        simple_selector(".test"),
        Ok((
            SimpleSelector::ClassSelector {
                class_name: "test".to_string(),
            },
            ""
        ))
    );
}

#[test]
fn test_declaration() {
    assert_eq!(
        declaration("keykey:piyo"),
        Ok((
            Declaration {
                name: "keykey".to_string(),
                value: CSSValue::Keyword("piyo".to_string()),
            },
            ""
        ))
    );

    assert_eq!(
        declaration("keyabc : piyo "),
        Ok((
            Declaration {
                name: "keyabc".to_string(),
                value: CSSValue::Keyword("piyo".to_string()),
            },
            " "
        ))
    );

    assert_eq!(
        declaration("keyhello : piyo "),
        Ok((
            Declaration {
                name: "keyhello".to_string(),
                value: CSSValue::Keyword("piyo".to_string()),
            },
            " "
        ))
    );

    assert!(declaration("aaaaa").is_err())
}

#[test]
fn test_universal_selector_behaviour() {
    let e = &sample();
    assert_eq!(SimpleSelector::UniversalSelector.matches(e), true);
}

#[test]
fn test_type_selector_behaviour() {
    let e = &sample();

    assert_eq!(
        (SimpleSelector::TypeSelector {
            tag_name: "p".into(),
        })
        .matches(e),
        true
    );

    assert_eq!(
        (SimpleSelector::TypeSelector {
            tag_name: "invalid".into(),
        })
        .matches(e),
        false
    );
}

#[test]
fn test_attribute_selector_behaviour() {
    let e = &sample();

    assert_eq!(
        (SimpleSelector::AttributeSelector {
            tag_name: "p".into(),
            attribute: "id".into(),
            value: "test".into(),
            op: AttributeSelectorOp::Eq,
        })
        .matches(e),
        true
    );

    assert_eq!(
        (SimpleSelector::AttributeSelector {
            tag_name: "p".into(),
            attribute: "id".into(),
            value: "invalid".into(),
            op: AttributeSelectorOp::Eq,
        })
        .matches(e),
        false
    );

    assert_eq!(
        (SimpleSelector::AttributeSelector {
            tag_name: "p".into(),
            attribute: "invalid".into(),
            value: "test".into(),
            op: AttributeSelectorOp::Eq,
        })
        .matches(e),
        false
    );

    assert_eq!(
        (SimpleSelector::AttributeSelector {
            tag_name: "invalid".into(),
            attribute: "id".into(),
            value: "test".into(),
            op: AttributeSelectorOp::Eq,
        })
        .matches(e),
        false
    );
}

#[test]
fn test_class_selector_behaviour() {
    let e = &sample();

    assert_eq!(
        (SimpleSelector::ClassSelector {
            class_name: "testclass".into(),
        })
        .matches(e),
        true
    );

    assert_eq!(
        (SimpleSelector::ClassSelector {
            class_name: "invalid".into(),
        })
        .matches(e),
        false
    );
}

#[test]
fn a_word_of_the_attribute_matches_with_contain_and_not_with_eq() {
    let e = &with_class("inline bold");
    assert!(attr_selector("p", AttributeSelectorOp::Contain, "class", "bold").matches(e));
    assert!(attr_selector("p", AttributeSelectorOp::Contain, "class", "inline").matches(e));
    assert!(!attr_selector("p", AttributeSelectorOp::Eq, "class", "bold").matches(e));
    assert!(attr_selector("p", AttributeSelectorOp::Eq, "class", "inline bold").matches(e));
    assert!(!attr_selector("p", AttributeSelectorOp::Contain, "class", "inline bold").matches(e));
    assert!(!attr_selector("p", AttributeSelectorOp::Contain, "class", "bol").matches(e));
    assert!(!attr_selector("p", AttributeSelectorOp::Contain, "class", "old").matches(e));
    assert!(!attr_selector("p", AttributeSelectorOp::Contain, "class", "").matches(e));
    assert!(!attr_selector("q", AttributeSelectorOp::Contain, "class", "bold").matches(e));
    assert!(!attr_selector("p", AttributeSelectorOp::Contain, "id", "bold").matches(e));
}

#[test]
fn words_are_separated_by_any_white_space() {
    let e = &with_class("\tone\u{3000}two\nthree ");
    assert!(attr_selector("p", AttributeSelectorOp::Contain, "class", "one").matches(e));
    assert!(attr_selector("p", AttributeSelectorOp::Contain, "class", "two").matches(e));
    assert!(attr_selector("p", AttributeSelectorOp::Contain, "class", "three").matches(e));
    assert!(!attr_selector("p", AttributeSelectorOp::Contain, "class", "one\u{3000}two").matches(e));
}

#[test]
fn a_class_selector_asks_for_the_whole_attribute() {
    let e = &with_class("inline bold");
    let class = |name: &str| SimpleSelector::ClassSelector {
        class_name: name.to_string(),
    };
    assert!(!class("inline").matches(e));
    assert!(!class("bold").matches(e));
    assert!(class("inline bold").matches(e));
}

#[test]
fn only_the_universal_selector_matches_text() {
    let t = &Text::new("p".to_string());
    assert!(SimpleSelector::UniversalSelector.matches(t));
    assert!(!SimpleSelector::TypeSelector { tag_name: "p".into() }.matches(t));
    assert!(!SimpleSelector::ClassSelector { class_name: "p".into() }.matches(t));
    assert!(!attr_selector("p", AttributeSelectorOp::Eq, "id", "p").matches(t));
}

#[test]
fn a_rule_matches_when_any_selector_does() {
    let e = &sample();
    let rule = |selectors: Vec<SimpleSelector>| Rule {
        selectors,
        declarations: vec![],
    };
    assert!(rule(vec![
        SimpleSelector::TypeSelector { tag_name: "div".into() },
        SimpleSelector::ClassSelector { class_name: "testclass".into() },
    ])
    .matches(e));
    assert!(!rule(vec![
        SimpleSelector::TypeSelector { tag_name: "div".into() },
        SimpleSelector::ClassSelector { class_name: "other".into() },
    ])
    .matches(e));
    assert!(!rule(vec![]).matches(e));
}

#[test]
fn a_stylesheet_is_parsed_to_its_end() {
    let css = "\nscript {\n    display: none;\n}\np, div {\n    display: block;\n}\n    .none {\n            display: none;\n        }\n        .inline {\n            display: inline;\n        }";
    let sheet = parse(css).unwrap();
    assert_eq!(
        sheet,
        Stylesheet::new(vec![
            Rule {
                selectors: vec![SimpleSelector::TypeSelector { tag_name: "script".into() }],
                declarations: vec![decl("display", "none")],
            },
            Rule {
                selectors: vec![
                    SimpleSelector::TypeSelector { tag_name: "p".into() },
                    SimpleSelector::TypeSelector { tag_name: "div".into() },
                ],
                declarations: vec![decl("display", "block")],
            },
            Rule {
                selectors: vec![SimpleSelector::ClassSelector { class_name: "none".into() }],
                declarations: vec![decl("display", "none")],
            },
            Rule {
                selectors: vec![SimpleSelector::ClassSelector { class_name: "inline".into() }],
                declarations: vec![decl("display", "inline")],
            },
        ])
    );
    assert_eq!(parse(""), Ok(Stylesheet::new(vec![])));
    assert_eq!(parse("  \n"), Ok(Stylesheet::new(vec![])));
    assert_eq!(
        parse("a{}b{}"),
        Ok(Stylesheet::new(vec![
            Rule {
                selectors: vec![SimpleSelector::TypeSelector { tag_name: "a".into() }],
                declarations: vec![],
            },
            Rule {
                selectors: vec![SimpleSelector::TypeSelector { tag_name: "b".into() }],
                declarations: vec![],
            },
        ]))
    );
}

#[test]
fn a_stylesheet_with_something_left_over_fails() {
    assert_eq!(parse("a {}!"), Err(ParseError::Trailing { offset: 4 }));
    assert_eq!(parse("!"), Err(ParseError::Trailing { offset: 0 }));
    assert_eq!(parse("a {} "), Err(ParseError::Malformed));
    assert_eq!(parse("a {} b"), Err(ParseError::Malformed));
    assert_eq!(rules("a {}!"), Ok((
        vec![Rule {
            selectors: vec![SimpleSelector::TypeSelector { tag_name: "a".into() }],
            declarations: vec![],
        }],
        "!"
    )));
}

#[test]
fn an_unknown_selector_operator_fails_the_stylesheet() {
    assert_eq!(parse("a[b^=c] { d: e }"), Err(ParseError::Malformed));
    assert_eq!(parse("a[b~c] { d: e }"), Err(ParseError::Malformed));
    assert_eq!(parse("a { d: e } a[b c] { d: e }"), Err(ParseError::Malformed));
    assert_eq!(simple_selector("a[b^=c]"), Err(ParseError::Malformed));
    assert_eq!(simple_selector("a[b =c]"), Err(ParseError::Malformed));
    assert_eq!(simple_selector("a[b=c"), Err(ParseError::Malformed));
    assert_eq!(simple_selector("a[=c]"), Err(ParseError::Malformed));
}

#[test]
fn a_malformed_declaration_fails_the_stylesheet() {
    assert_eq!(parse("a { d e }"), Err(ParseError::Malformed));
    assert_eq!(parse("a { d: }"), Err(ParseError::Malformed));
    assert_eq!(parse("a { d: e"), Err(ParseError::Malformed));
    assert_eq!(parse("a { d: e; ; }"), Err(ParseError::Malformed));
    assert_eq!(parse("a { d: 1 }"), Err(ParseError::Malformed));
    assert_eq!(declaration(": e"), Err(ParseError::NoMatch));
    assert_eq!(declaration("d e"), Err(ParseError::Malformed));
    assert_eq!(declarations("d: e; f"), Err(ParseError::Malformed));
}

#[test]
fn selector_errors() {
    assert_eq!(simple_selector("{"), Err(ParseError::NoMatch));
    assert_eq!(simple_selector("."), Err(ParseError::Malformed));
    assert_eq!(selectors("a,"), Err(ParseError::Malformed));
    assert_eq!(selectors("a, {"), Err(ParseError::Malformed));
    assert_eq!(selectors("{"), Ok((vec![], "{")));
    assert_eq!(rule("!"), Err(ParseError::NoMatch));
    assert_eq!(rule("a"), Err(ParseError::Malformed));
    assert_eq!(rule("a {"), Err(ParseError::Malformed));
}

#[test]
fn a_rule_may_have_no_selector() {
    assert_eq!(
        rule("{ a: b }"),
        Ok((
            Rule {
                selectors: vec![],
                declarations: vec![decl("a", "b")],
            },
            ""
        ))
    );
}

#[test]
fn declarations_may_end_without_a_semicolon() {
    assert_eq!(
        declarations("a: b; c: d }"),
        Ok((vec![decl("a", "b"), decl("c", "d")], "}"))
    );
    assert_eq!(declarations("}"), Ok((vec![], "}")));
}

#[test]
fn css_values_compare_and_clone() {
    let a = CSSValue::Keyword("block".to_string());
    assert_eq!(a.clone(), a);
    assert_ne!(a, CSSValue::Keyword("inline".to_string()));
}
