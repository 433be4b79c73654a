use dom::dom::{collect_tag_inners, AttrMap, Element, Node, NodeType, Text};
use dom::html::parse;
use dom::parse::ParseError;

fn el(name: &str, pairs: &[(&str, &str)], children: Vec<Box<Node>>) -> Box<Node> {
    let mut attributes = AttrMap::new();
    for (k, v) in pairs {
        attributes.insert(k.to_string(), v.to_string());
    }
    Element::new(name.to_string(), attributes, children)
}

fn text(s: &str) -> Box<Node> {
    Text::new(s.to_string())
}

#[test]
fn inner_text_joins_all_text_below() {
    let tree = parse("<div>a<p>b<i>c</i></p>d</div>").unwrap();
    assert_eq!(tree.inner_text(), "abcd");
    assert_eq!(text("x").inner_text(), "");
    assert_eq!(el("p", &[], vec![]).inner_text(), "");
}

#[test]
fn set_inner_text_leaves_one_text_node() {
    let mut tree = parse("<div>a<p>b</p></div>").unwrap();
    tree.set_inner_text("new text");
    assert_eq!(tree, el("div", &[], vec![text("new text")]));
    assert_eq!(tree.inner_text(), "new text");
}

#[test]
fn inner_html_writes_the_children_as_markup() {
    let tree = el(
        "div",
        &[("id", "top")],
        vec![
            text("a"),
            el("p", &[("id", "x"), ("class", "inline bold")], vec![text("b")]),
            el("br", &[], vec![]),
        ],
    );
    assert_eq!(
        tree.inner_html(),
        "a<p id=\"x\" class=\"inline bold\">b</p><br></br>"
    );
    assert_eq!(text("a").inner_html(), "");
}

#[test]
fn markup_that_was_written_parses_back() {
    let tree = el(
        "div",
        &[("id", "top")],
        vec![
            text("a b"),
            el("p", &[("id", "x"), ("class", "inline bold")], vec![text("b")]),
            text("c"),
            el("日本", &[], vec![el("i", &[], vec![])]),
        ],
    );
    let mut copy = el("div", &[("id", "top")], vec![]);
    copy.set_inner_html(&tree.inner_html()).unwrap();
    assert_eq!(copy, tree);
}

#[test]
fn set_inner_html_replaces_the_children() {
    let mut tree = parse("<div id=\"a\">old</div>").unwrap();
    assert_eq!(tree.set_inner_html("<p>x</p> y"), Ok(()));
    assert_eq!(
        tree,
        el("div", &[("id", "a")], vec![el("p", &[], vec![text("x")]), text("y")])
    );
    assert_eq!(tree.set_inner_html(""), Ok(()));
    assert_eq!(tree, el("div", &[("id", "a")], vec![]));
}

#[test]
fn set_inner_html_leaves_the_node_alone_when_the_markup_is_broken() {
    let mut tree = parse("<div id=\"a\">old</div>").unwrap();
    assert_eq!(
        tree.set_inner_html("<p>x</p><p>y</q>"),
        Err(ParseError::Trailing { offset: 8 })
    );
    assert_eq!(tree, el("div", &[("id", "a")], vec![text("old")]));
}

#[test]
fn get_element_by_id_finds_the_first_in_document_order() {
    let mut tree = parse(
        "<div><p id=\"a\">one</p><section><p id=\"b\">two</p><p id=\"a\">three</p></section></div>",
    )
    .unwrap();
    assert_eq!(tree.get_element_by_id("a").unwrap().inner_text(), "one");
    assert_eq!(tree.get_element_by_id("b").unwrap().inner_text(), "two");
    assert!(tree.get_element_by_id("c").is_none());
    assert!(tree.get_element_by_id("").is_none());
}

#[test]
fn get_element_by_id_may_find_the_root() {
    let mut tree = parse("<div id=\"a\"><p id=\"a\">x</p></div>").unwrap();
    let found = tree.get_element_by_id("a").unwrap();
    assert_eq!(found.children.len(), 1);
    match &found.node_type {
        NodeType::Element(e) => assert_eq!(e.tag_name, "div"),
        NodeType::Text(_) => panic!("an element was asked for"),
    }
    assert!(text("a").get_element_by_id("a").is_none());
}

#[test]
fn what_is_written_through_the_found_element_is_written_into_the_tree() {
    let mut tree = parse("<div><p>one</p><p id=\"result\">hoge</p><p>three</p></div>").unwrap();
    tree.get_element_by_id("result")
        .unwrap()
        .set_inner_text("fuga");
    assert_eq!(
        tree,
        parse("<div><p>one</p><p id=\"result\">fuga</p><p>three</p></div>").unwrap()
    );
    let found = tree.get_element_by_id("result").unwrap();
    *found = text("gone");
    assert_eq!(tree, parse("<div><p>one</p>gone<p>three</p></div>").unwrap());
}

#[test]
fn element_id_and_attributes() {
    let node = el("p", &[("id", "x"), ("class", "c"), ("id", "y")], vec![]);
    match &node.node_type {
        NodeType::Element(e) => {
            assert_eq!(e.id(), Some(&"y".to_string()));
            assert_eq!(
                e.attributes(),
                vec![
                    ("id".to_string(), "y".to_string()),
                    ("class".to_string(), "c".to_string())
                ]
            );
        }
        NodeType::Text(_) => panic!("an element was built"),
    }
    match &el("p", &[("class", "c")], vec![]).node_type {
        NodeType::Element(e) => {
            assert_eq!(e.id(), None);
        }
        NodeType::Text(_) => panic!("an element was built"),
    }
}

#[test]
fn attribute_maps_are_equal_whatever_the_order() {
    let a = el("p", &[("id", "x"), ("class", "c")], vec![]);
    let b = el("p", &[("class", "c"), ("id", "x")], vec![]);
    assert_eq!(a, b);
    assert_ne!(a, el("p", &[("class", "c"), ("id", "y")], vec![]));
    assert_ne!(a, el("p", &[("class", "c")], vec![]));
    assert_ne!(el("p", &[("class", "c")], vec![]), a);
    assert_ne!(a, el("p", &[("id", "x"), ("class", "c"), ("k", "v")], vec![]));
}

#[test]
fn constructors() {
    let t = text("x");
    assert_eq!(
        *t,
        Node {
            node_type: NodeType::Text(Text {
                data: "x".to_string()
            }),
            children: vec![],
        }
    );
    let e = el("p", &[], vec![text("x")]);
    assert_eq!(
        *e,
        Node {
            node_type: NodeType::Element(Element {
                tag_name: "p".to_string(),
                attributes: AttrMap::new(),
            }),
            children: vec![text("x")],
        }
    );
}

#[test]
fn collect_tag_inners_lists_the_text_of_each_such_element() {
    let tree = parse(
        "<html><script>a()</script><body><p>x</p><script>b(<i>c</i>)</script></body></html>",
    )
    .unwrap();
    assert_eq!(
        collect_tag_inners(&tree, "script"),
        vec!["a()".to_string(), "b(c)".to_string()]
    );
    assert_eq!(collect_tag_inners(&tree, "html"), vec!["a()xb(c)".to_string()]);
    assert_eq!(collect_tag_inners(&tree, "div"), Vec::<String>::new());
    let nested = parse("<p>a<p>b</p></p>").unwrap();
    assert_eq!(collect_tag_inners(&nested, "p"), vec!["ab".to_string()]);
}

#[test]
fn trees_are_equal_node_for_node() {
    let a = parse("<div id=\"a\">x<p>y</p></div>").unwrap();
    let b = parse("<div   id=\"a\"  >x<p>y</p>\n</div>").unwrap();
    assert!(a.same_as(&b));
    assert_eq!(a, b);
    assert!(!a.same_as(&parse("<div id=\"a\">x<p>z</p></div>").unwrap()));
    assert!(!a.same_as(&parse("<div id=\"a\">x<p>y</p>z</div>").unwrap()));
    assert!(!a.same_as(&parse("<div id=\"b\">x<p>y</p></div>").unwrap()));
    assert!(!a.same_as(&parse("<span id=\"a\">x<p>y</p></span>").unwrap()));
    assert!(!text("div").same_as(&el("div", &[], vec![])));
    assert!(text("div").same_as(&text("div")));
    assert_ne!(text("a"), text("b"));
}
