use dom::css::{parse as parse_css, CSSValue, Declaration, Rule, SimpleSelector, Stylesheet};
use dom::html::parse as parse_html;
use dom::layout::LayoutBox;
use dom::style::{to_styled_node, Display, StyledNode};

fn keyword(s: &str) -> CSSValue {
    CSSValue::Keyword(s.to_string())
}

fn count(node: &StyledNode) -> usize {
    1 + node.children.iter().map(count).sum::<usize>()
}

#[test]
fn the_later_declaration_wins() {
    let node = parse_html("<p>x</p>").unwrap();
    let sheet = parse_css("p {display: inline}p {display: block}").unwrap();
    let styled = to_styled_node(&node, &sheet).unwrap();
    assert_eq!(styled.properties.get("display"), Some(&keyword("block")));
    assert_eq!(styled.properties.len(), 1);
    assert_eq!(styled.display(), Display::Block);

    let sheet = parse_css("p {display: block}p {display: inline}").unwrap();
    let styled = to_styled_node(&node, &sheet).unwrap();
    assert_eq!(styled.properties.get("display"), Some(&keyword("inline")));
    assert_eq!(styled.display(), Display::Inline);
}

#[test]
fn the_later_declaration_wins_inside_one_rule() {
    let node = parse_html("<p>x</p>").unwrap();
    let sheet = parse_css("p {color: red; display: inline; color: blue}").unwrap();
    let styled = to_styled_node(&node, &sheet).unwrap();
    assert_eq!(styled.properties.get("color"), Some(&keyword("blue")));
    assert_eq!(styled.properties.get("display"), Some(&keyword("inline")));
    assert_eq!(styled.properties.len(), 2);
}

#[test]
fn rules_that_do_not_match_give_nothing() {
    let node = parse_html("<p>x</p>").unwrap();
    let sheet = parse_css("div {display: none}* {color: red}p {display: inline}div {color: blue}").unwrap();
    let styled = to_styled_node(&node, &sheet).unwrap();
    assert_eq!(styled.properties.get("color"), Some(&keyword("red")));
    assert_eq!(styled.properties.get("display"), Some(&keyword("inline")));
    let text = &styled.children[0];
    assert_eq!(text.properties.get("color"), Some(&keyword("red")));
    assert_eq!(text.properties.get("display"), None);
    assert_eq!(text.display(), Display::Inline);
}

#[test]
fn a_node_that_is_not_displayed_is_left_out_with_all_below_it() {
    let node = parse_html("<div class=\"none\"><p>x</p></div>").unwrap();
    let sheet = parse_css(".none {display:none}").unwrap();
    assert_eq!(to_styled_node(&node, &sheet), None);

    let node = parse_html("<body><div class=\"none\"><p>x</p></div><p>y</p></body>").unwrap();
    let styled = to_styled_node(&node, &sheet).unwrap();
    assert_eq!(styled.children.len(), 1);
    assert_eq!(count(&styled), 3);
    assert_eq!(styled.children[0].node_type, &node.children[1].node_type);
}

#[test]
fn a_styled_node_borrows_the_node_it_stands_for() {
    let node = parse_html("<p>x</p>").unwrap();
    let sheet = Stylesheet::new(vec![Rule {
        selectors: vec![SimpleSelector::UniversalSelector],
        declarations: vec![Declaration {
            name: "display".to_string(),
            value: keyword("block"),
        }],
    }]);
    let styled = to_styled_node(&node, &sheet).unwrap();
    assert!(std::ptr::eq(styled.node_type, &node.node_type));
    assert!(std::ptr::eq(
        styled.children[0].node_type,
        &node.children[0].node_type
    ));
    assert_eq!(styled.children[0].display(), Display::Block);
}

#[test]
fn the_whole_pipeline() {
    let html = "<body>\n    <p>hello</p>\n    <p class=\"inline\">world</p>\n    <p class=\"inline\">:)</p>\n    <p>this</p>\n    <p class=\"inline\">is</p>\n    <p class=\"inline\">inline</p>\n    <div class=\"none\"><p>this should not be shown</p></div>\n</body>";
    let css = "\nscript {\n    display: none;\n}\np, div {\n    display: block;\n}\n    .none {\n            display: none;\n        }\n        .inline {\n            display: inline;\n        }";
    let node = parse_html(html).unwrap();
    let sheet = parse_css(css).unwrap();
    let styled = to_styled_node(&node, &sheet).unwrap();
    let tree = LayoutBox::new(styled);
    assert_eq!(
        tree.debug(0),
        "- BlockBox tag: body\n\
         \x20 - BlockBox tag: p\n\
         \x20   - AnonymousBox\n\
         \x20     - InlineBox text: hello\n\
         \x20 - AnonymousBox\n\
         \x20   - InlineBox tag: p\n\
         \x20     - InlineBox text: world\n\
         \x20   - InlineBox tag: p\n\
         \x20     - InlineBox text: :)\n\
         \x20 - BlockBox tag: p\n\
         \x20   - AnonymousBox\n\
         \x20     - InlineBox text: this\n\
         \x20 - AnonymousBox\n\
         \x20   - InlineBox tag: p\n\
         \x20     - InlineBox text: is\n\
         \x20   - InlineBox tag: p\n\
         \x20     - InlineBox text: inline\n"
    );
}

#[test]
fn trees_of_the_resolver_are_visible_and_others_need_not_be() {
    let node = parse_html("<body><div class=\"none\"><p>x</p></div><p>y</p></body>").unwrap();
    let sheet = parse_css(".none {display:none}").unwrap();
    let styled = to_styled_node(&node, &sheet).unwrap();
    assert!(styled.is_visible());

    let hidden = to_styled_node(&node, &parse_css("").unwrap()).unwrap();
    assert!(hidden.is_visible());
    let mut by_hand = hidden;
    by_hand.children[0].children[0].properties.insert(
        "display".to_string(),
        keyword("none"),
    );
    assert!(!by_hand.is_visible());
}
