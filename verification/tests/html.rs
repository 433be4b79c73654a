use dom::dom::{AttrMap, Element, Node, NodeType, Text};
use dom::html::{attribute, attributes, close_tag, element, open_tag, parse, parse_raw, text};
use dom::parse::ParseError;

fn attrs(pairs: &[(&str, &str)]) -> AttrMap {
    let mut map = AttrMap::new();
    for (name, value) in pairs {
        map.insert(name.to_string(), value.to_string());
    }
    map
}

fn el(name: &str, children: Vec<Box<Node>>) -> Box<Node> {
    Element::new(name.to_string(), AttrMap::new(), children)
}

fn count_elements(node: &Node) -> usize {
    let below: usize = node.children.iter().map(|c| count_elements(c)).sum();
    match node.node_type {
        NodeType::Element(_) => 1 + below,
        NodeType::Text(_) => below,
    }
}

// parsing tests of attributes
#[test]
fn test_parse_attribute() {
    assert_eq!(
        attribute("test=\"foobar\""),
        Ok((("test".to_string(), "foobar".to_string()), ""))
    );

    assert_eq!(
        attribute("test = \"foobar\""),
        Ok((("test".to_string(), "foobar".to_string()), ""))
    )
}

#[test]
fn test_parse_attributes() {
    let mut expected_map = AttrMap::new();
    expected_map.insert("test".to_string(), "foobar".to_string());
    expected_map.insert("abc".to_string(), "def".to_string());
    assert_eq!(
        attributes("test=\"foobar\" abc=\"def\""),
        Ok((expected_map, ""))
    );

    assert_eq!(attributes(""), Ok((AttrMap::new(), "")))
}

#[test]
fn test_parse_open_tag() {
    {
        assert_eq!(
            open_tag("<p>aaaa"),
            Ok((("p".to_string(), AttrMap::new()), "aaaa"))
        );
    }
    {
        let mut attributes = AttrMap::new();
        attributes.insert("id".to_string(), "test".to_string());
        assert_eq!(
            open_tag("<p id=\"test\">"),
            Ok((("p".to_string(), attributes), ""))
        )
    }
    {
        let mut attributes = AttrMap::new();
        attributes.insert("id".to_string(), "test".to_string());
        assert_eq!(
            open_tag("<p id=\"test\"  >"),
            Ok((("p".to_string(), attributes), ""))
        )
    }

    {
        let result = open_tag("<p id=\"test\" class=\"sample\">");
        let mut attributes = AttrMap::new();
        attributes.insert("id".to_string(), "test".to_string());
        attributes.insert("class".to_string(), "sample".to_string());
        assert_eq!(result, Ok((("p".to_string(), attributes), "")));
    }

    {
        assert!(open_tag("<p id>").is_err());
    }
}

// parsing tests of close tags
#[test]
fn test_parse_close_tag() {
    let result = close_tag("</p>");
    assert_eq!(result, Ok(("p".to_string(), "")))
}

#[test]
fn test_parse_element() {
    assert_eq!(
        element("<p></p>"),
        Ok((Element::new("p".to_string(), AttrMap::new(), vec![]), ""))
    );

    assert_eq!(
        element("<p>hello world</p>"),
        Ok((
            Element::new(
                "p".to_string(),
                AttrMap::new(),
                vec![Text::new("hello world".to_string())]
            ),
            ""
        ))
    );

    assert_eq!(
        element("<div>  <p>hello world</p>\n </div>"),
        Ok((
            Element::new(
                "div".to_string(),
                AttrMap::new(),
                vec![Element::new(
                    "p".to_string(),
                    AttrMap::new(),
                    vec![Text::new("hello world".to_string())]
                )],
            ),
            ""
        ))
    );

    assert!(element("<p>hello world</div>").is_err());
}

#[test]
fn test_parse_text() {
    {
        assert_eq!(
            text("Hello World"),
            Ok((Text::new("Hello World".to_string()), ""))
        );
    }
    {
        assert_eq!(
            text("Hello World<"),
            Ok((Text::new("Hello World".to_string()), "<"))
        );
    }
}

#[test]
fn attribute_errors_tell_a_miss_from_a_malformed_attribute() {
    assert_eq!(attribute("=\"x\""), Err(ParseError::NoMatch));
    assert_eq!(attribute(""), Err(ParseError::NoMatch));
    assert_eq!(attribute("id"), Err(ParseError::Malformed));
    assert_eq!(attribute("id=x"), Err(ParseError::Malformed));
    assert_eq!(attribute("id=\"\""), Err(ParseError::Malformed));
    assert_eq!(attribute("id=\"x"), Err(ParseError::Malformed));
}

#[test]
fn attributes_stop_where_no_attribute_begins_and_fail_on_a_broken_one() {
    assert_eq!(
        attributes("a=\"1\"b=\"2\"  >"),
        Ok((attrs(&[("a", "1"), ("b", "2")]), ">"))
    );
    assert_eq!(attributes("a=\"1\" b"), Err(ParseError::Malformed));
}

#[test]
fn a_repeated_attribute_keeps_its_last_value() {
    let (map, rest) = attributes("a=\"1\" b=\"2\" a=\"3\"").unwrap();
    assert_eq!(rest, "");
    assert_eq!(map.len(), 2);
    assert_eq!(map.get("a"), Some(&"3".to_string()));
    assert_eq!(map.get("b"), Some(&"2".to_string()));
}

#[test]
fn tag_errors() {
    assert_eq!(open_tag("p>"), Err(ParseError::NoMatch));
    assert_eq!(open_tag("<>"), Err(ParseError::Malformed));
    assert_eq!(open_tag("<p"), Err(ParseError::Malformed));
    assert_eq!(close_tag("p"), Err(ParseError::NoMatch));
    assert_eq!(close_tag("<p>"), Err(ParseError::Malformed));
    assert_eq!(close_tag("</>"), Err(ParseError::Malformed));
    assert_eq!(close_tag("</p"), Err(ParseError::Malformed));
    assert_eq!(text("<p>"), Err(ParseError::NoMatch));
    assert_eq!(text(""), Err(ParseError::NoMatch));
    assert_eq!(element("x"), Err(ParseError::NoMatch));
    assert_eq!(element("<p>x"), Err(ParseError::Malformed));
}

#[test]
fn names_are_made_of_letters_of_any_script() {
    assert_eq!(
        element("<日本>x</日本>"),
        Ok((el("日本", vec![Text::new("x".to_string())]), ""))
    );
    assert_eq!(open_tag("<h1>"), Err(ParseError::Malformed));
    assert_eq!(open_tag("<p-q>"), Err(ParseError::Malformed));
}

#[test]
fn text_is_trimmed_of_every_kind_of_white_space() {
    assert_eq!(
        text("\u{3000}\t a b \r\n\u{a0}<"),
        Ok((Text::new("a b".to_string()), "<"))
    );
    assert_eq!(text("   "), Ok((Text::new("".to_string()), "")));
}

#[test]
fn mismatched_tags_fail_the_parse() {
    assert_eq!(parse("<p>x</div>"), Err(ParseError::Trailing { offset: 0 }));
    assert_eq!(parse_raw("<p>x</div>"), Err(ParseError::Trailing { offset: 0 }));
    assert_eq!(
        parse_raw("<a></a><p>x</div>"),
        Err(ParseError::Trailing { offset: 7 })
    );
    assert_eq!(parse_raw("<a><b></a></b>"), Err(ParseError::Trailing { offset: 0 }));
}

#[test]
fn unterminated_input_fails_the_parse() {
    assert_eq!(parse_raw("<p>"), Err(ParseError::Trailing { offset: 0 }));
    assert_eq!(parse_raw("<p id>x</p>"), Err(ParseError::Trailing { offset: 0 }));
    assert_eq!(parse_raw("text</p>"), Err(ParseError::Trailing { offset: 4 }));
    assert_eq!(parse_raw("é<"), Err(ParseError::Trailing { offset: 1 }));
}

#[test]
fn white_space_between_tags_leaves_no_node() {
    let root = parse("<div>  <p>hi</p>  </div>").unwrap();
    assert_eq!(root.children.len(), 1);
    assert_eq!(
        root,
        el("div", vec![el("p", vec![Text::new("hi".to_string())])])
    );
    assert_eq!(parse_raw(" \n\t "), Ok(vec![]));
}

#[test]
fn one_top_level_node_is_the_root() {
    assert_eq!(
        parse("<p>a</p>"),
        Ok(el("p", vec![Text::new("a".to_string())]))
    );
    assert_eq!(parse("just text"), Ok(Text::new("just text".to_string())));
    assert_eq!(parse("\n<p></p>\n"), Ok(el("p", vec![])));
}

#[test]
fn several_top_level_nodes_get_an_html_root() {
    assert_eq!(
        parse("<p>a</p><p>b</p>tail"),
        Ok(el(
            "html",
            vec![
                el("p", vec![Text::new("a".to_string())]),
                el("p", vec![Text::new("b".to_string())]),
                Text::new("tail".to_string()),
            ]
        ))
    );
    assert_eq!(parse(""), Ok(el("html", vec![])));
}

#[test]
fn the_tree_has_one_element_for_each_pair_of_tags() {
    let raw = "<body>\n    <p>hello</p>\n    <p class=\"inline\">world</p>\n    <div class=\"none\"><p>this should not be shown</p></div>\n</body>";
    let root = parse(raw).unwrap();
    assert_eq!(count_elements(&root), 5);
    assert_eq!(raw.matches("</").count(), 5);
    assert_eq!(root.children.len(), 3);
    assert_eq!(
        root.children[1],
        Element::new(
            "p".to_string(),
            attrs(&[("class", "inline")]),
            vec![Text::new("world".to_string())]
        )
    );
}

#[test]
fn parse_raw_returns_the_top_level_nodes_as_they_are() {
    assert_eq!(
        parse_raw("a<b></b>c"),
        Ok(vec![
            Text::new("a".to_string()),
            el("b", vec![]),
            Text::new("c".to_string())
        ])
    );
    assert_eq!(parse_raw("<p></p>"), Ok(vec![el("p", vec![])]));
}

#[test]
fn tag_names_are_compared_as_they_are_written() {
    assert_eq!(parse_raw("<P>x</p>"), Err(ParseError::Trailing { offset: 0 }));
    assert_eq!(
        parse_raw("<P>x</P>"),
        Ok(vec![el("P", vec![Text::new("x".to_string())])])
    );
}

#[test]
fn what_the_grammar_does_not_know_fails_the_parse() {
    assert_eq!(parse_raw("<!-- note -->"), Err(ParseError::Trailing { offset: 0 }));
    assert_eq!(parse_raw("<br/>"), Err(ParseError::Trailing { offset: 0 }));
    assert_eq!(parse_raw("<p id='x'></p>"), Err(ParseError::Trailing { offset: 0 }));
    assert_eq!(
        parse_raw("a > b &amp; c"),
        Ok(vec![Text::new("a > b &amp; c".to_string())])
    );
}

#[test]
fn attribute_values_may_hold_anything_but_a_quote() {
    assert_eq!(
        parse_raw("<a href=\"x?y=<1>&z= 2 \">t</a>"),
        Ok(vec![Element::new(
            "a".to_string(),
            attrs(&[("href", "x?y=<1>&z= 2 ")]),
            vec![Text::new("t".to_string())]
        )])
    );
}
