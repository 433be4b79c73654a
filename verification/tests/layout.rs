use dom::css::CSSValue;
use dom::dom::{AttrMap, Element, NodeType, Text};
use dom::layout::{BoxProps, BoxType, LayoutBox};
use dom::style::{Display, PropertyMap, StyledNode};

fn props(display: &str) -> PropertyMap {
    let mut map = PropertyMap::new();
    map.insert(
        "display".to_string(),
        CSSValue::Keyword(display.to_string()),
    );
    map
}

fn div() -> NodeType {
    NodeType::Element(Element {
        tag_name: "div".into(),
        attributes: AttrMap::new(),
    })
}

fn leaf<'a>(node: &'a NodeType, display: &str) -> StyledNode<'a> {
    StyledNode {
        node_type: node,
        properties: props(display),
        children: vec![],
    }
}

fn kinds(boxes: &[LayoutBox]) -> Vec<&'static str> {
    boxes
        .iter()
        .map(|b| match b.box_type {
            BoxType::BlockBox(_) => "block",
            BoxType::InlineBox(_) => "inline",
            BoxType::AnonymousBox => "anonymous",
        })
        .collect()
}

#[test]
fn test_to_layout_box() {
    let node = div();
    let snode = StyledNode {
        node_type: &node,
        properties: props("block"),
        children: vec![
            StyledNode {
                node_type: &node,
                properties: props("block"),
                children: vec![],
            },
            StyledNode {
                node_type: &node,
                properties: props("inline"),
                children: vec![
                    StyledNode {
                        node_type: &node,
                        properties: props("block"),
                        children: vec![],
                    },
                    StyledNode {
                        node_type: &node,
                        properties: props("block"),
                        children: vec![],
                    },
                ],
            },
            StyledNode {
                node_type: &node,
                properties: props("inline"),
                children: vec![],
            },
            StyledNode {
                node_type: &node,
                properties: props("block"),
                children: vec![],
            },
        ],
    };

    assert_eq!(
        LayoutBox::new(snode),
        LayoutBox {
            box_type: BoxType::BlockBox(BoxProps {
                node_type: &node,
                properties: props("block"),
            }),
            children: vec![
                LayoutBox {
                    box_type: BoxType::BlockBox(BoxProps {
                        node_type: &node,
                        properties: props("block"),
                    }),
                    children: vec![],
                },
                LayoutBox {
                    box_type: BoxType::AnonymousBox,
                    children: vec![
                        LayoutBox {
                            box_type: BoxType::InlineBox(BoxProps {
                                node_type: &node,
                                properties: props("inline"),
                            }),
                            children: vec![
                                LayoutBox {
                                    box_type: BoxType::BlockBox(BoxProps {
                                        node_type: &node,
                                        properties: props("block"),
                                    }),
                                    children: vec![],
                                },
                                LayoutBox {
                                    box_type: BoxType::BlockBox(BoxProps {
                                        node_type: &node,
                                        properties: props("block"),
                                    }),
                                    children: vec![],
                                }
                            ],
                        },
                        LayoutBox {
                            box_type: BoxType::InlineBox(BoxProps {
                                node_type: &node,
                                properties: props("inline"),
                            }),
                            children: vec![],
                        }
                    ]
                },
                LayoutBox {
                    box_type: BoxType::BlockBox(BoxProps {
                        node_type: &node,
                        properties: props("block"),
                    }),
                    children: vec![],
                }
            ],
        }
    );
}

#[test]
fn a_run_of_inline_children_gets_one_anonymous_box() {
    let node = div();
    let snode = StyledNode {
        node_type: &node,
        properties: props("block"),
        children: vec![
            leaf(&node, "block"),
            leaf(&node, "inline"),
            leaf(&node, "inline"),
            leaf(&node, "block"),
        ],
    };
    let root = LayoutBox::new(snode);
    assert_eq!(kinds(&root.children), vec!["block", "anonymous", "block"]);
    assert_eq!(kinds(&root.children[1].children), vec!["inline", "inline"]);
}

#[test]
fn runs_that_a_block_parts_get_a_box_each() {
    let node = div();
    let snode = StyledNode {
        node_type: &node,
        properties: props("block"),
        children: vec![
            leaf(&node, "inline"),
            leaf(&node, "block"),
            leaf(&node, "inline"),
            leaf(&node, "inline"),
            leaf(&node, "inline"),
        ],
    };
    let root = LayoutBox::new(snode);
    assert_eq!(kinds(&root.children), vec!["anonymous", "block", "anonymous"]);
    assert_eq!(kinds(&root.children[0].children), vec!["inline"]);
    assert_eq!(
        kinds(&root.children[2].children),
        vec!["inline", "inline", "inline"]
    );
}

#[test]
fn an_inline_box_holds_its_children_as_they_come() {
    let node = div();
    let snode = StyledNode {
        node_type: &node,
        properties: props("inline"),
        children: vec![
            leaf(&node, "inline"),
            leaf(&node, "block"),
            leaf(&node, "inline"),
        ],
    };
    let root = LayoutBox::new(snode);
    assert!(root.box_type.is_inline());
    assert_eq!(kinds(&root.children), vec!["inline", "block", "inline"]);
}

#[test]
fn the_display_of_a_node_without_the_property_goes_by_its_kind() {
    let element = div();
    let text = NodeType::Text(dom::dom::Text {
        data: "x".to_string(),
    });
    let plain = |node| StyledNode {
        node_type: node,
        properties: PropertyMap::new(),
        children: vec![],
    };
    assert_eq!(plain(&element).display(), Display::Block);
    assert_eq!(plain(&text).display(), Display::Inline);
    assert_eq!(leaf(&element, "inline").display(), Display::Inline);
    assert_eq!(leaf(&text, "block").display(), Display::Block);
    assert_eq!(leaf(&text, "none").display(), Display::Hidden);
    assert_eq!(leaf(&element, "none").display(), Display::Hidden);
    assert_eq!(leaf(&element, "flex").display(), Display::Inline);
    assert_eq!(leaf(&text, "flex").display(), Display::Inline);
    let root = LayoutBox::new(StyledNode {
        node_type: &element,
        properties: PropertyMap::new(),
        children: vec![plain(&text), plain(&element)],
    });
    assert_eq!(kinds(&root.children), vec!["anonymous", "block"]);
}

#[test]
fn box_types_give_their_props() {
    let node = div();
    let block = BoxType::BlockBox(BoxProps {
        node_type: &node,
        properties: props("block"),
    });
    let inline = BoxType::InlineBox(BoxProps {
        node_type: &node,
        properties: props("inline"),
    });
    assert_eq!(
        block.get_props(),
        Some(&BoxProps {
            node_type: &node,
            properties: props("block"),
        })
    );
    assert_eq!(
        inline.get_props(),
        Some(&BoxProps {
            node_type: &node,
            properties: props("inline"),
        })
    );
    assert_eq!(BoxType::AnonymousBox.get_props(), None);
    assert!(!block.is_inline());
    assert!(inline.is_inline());
    assert!(BoxType::AnonymousBox.is_inline());
}

#[test]
fn the_dump_has_a_line_for_each_box() {
    let element = div();
    let hello = Text::new("hello".to_string());
    let snode = StyledNode {
        node_type: &element,
        properties: props("block"),
        children: vec![
            StyledNode {
                node_type: &hello.node_type,
                properties: PropertyMap::new(),
                children: vec![],
            },
            leaf(&element, "block"),
        ],
    };
    let root = LayoutBox::new(snode);
    assert_eq!(
        root.debug(0),
        "- BlockBox tag: div\n  - AnonymousBox\n    - InlineBox text: hello\n  - BlockBox tag: div\n"
    );
    assert_eq!(
        root.children[0].debug(2),
        "    - AnonymousBox\n      - InlineBox text: hello\n"
    );
    assert_eq!(root.box_type.to_text(), "BlockBox tag: div");
    assert_eq!(root.children[0].box_type.to_text(), "AnonymousBox");
    assert_eq!(
        root.children[0].children[0]
            .box_type
            .get_props()
            .unwrap()
            .to_text(),
        "text: hello"
    );
}

#[test]
fn property_maps_are_equal_whatever_the_order() {
    let mut a = PropertyMap::new();
    a.insert("x".to_string(), CSSValue::Keyword("one".to_string()));
    a.insert("y".to_string(), CSSValue::Keyword("two".to_string()));
    let mut b = PropertyMap::new();
    b.insert("y".to_string(), CSSValue::Keyword("two".to_string()));
    b.insert("x".to_string(), CSSValue::Keyword("one".to_string()));
    assert_eq!(a, b);
    b.insert("x".to_string(), CSSValue::Keyword("three".to_string()));
    assert_ne!(a, b);
    assert_ne!(a, PropertyMap::new());
    assert_eq!(a.clone(), a);
}
