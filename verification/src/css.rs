//! Stylesheets: rules made of selectors and declarations, how a rule matches a node,
//! and the stylesheet parser.
//!
//! ```text
//! stylesheet  := S* (rule (S* rule)*)?
//! rule        := selectors S* '{' S* declarations S* '}'
//! selectors   := (selector S* (',' S* selector S*)*)?
//! selector    := '*' | '.' name | name S* ('[' S* name op name ']')?
//! op          := '=' | '~='
//! declarations:= (declaration S* (';' S* declaration S*)* (';' S*)?)?
//! declaration := name S* ':' S* name
//! name        := letter+
//! ```
//!
//! `S` is white space. A rule that follows white space must be there: white space at
//! the end of a stylesheet is an error.

use crate::dom::{Node, NodeType, NodeTypeView, NodeView};
use crate::parse::{prepend, rest_of, ParseError, Parsed};
use crate::text::{
    at, blank_end, contains_word, from_chars, has_word, is_at, is_space, lemma_words_of_pair,
    name_end, skip, to_chars, CharClass,
};
use vstd::prelude::*;
use vstd::std_specs::cmp::PartialEqSpecImpl;

verus! {

/// A stylesheet: rules in the order in which they were written.
#[derive(Debug, PartialEq)]
pub struct Stylesheet {
    pub rules: Vec<Rule>,
}

/// A rule: it applies to the nodes that any of its selectors matches.
#[derive(Debug, PartialEq)]
pub struct Rule {
    pub selectors: Vec<Selector>,
    pub declarations: Vec<Declaration>,
}

/// A selector is a single simple selector.
pub type Selector = SimpleSelector;

/// A simple selector.
#[derive(Debug, PartialEq)]
pub enum SimpleSelector {
    /// `*`: every node.
    UniversalSelector,
    /// `name`: the elements with this tag name.
    TypeSelector { tag_name: String },
    /// `name[attribute op value]`: the elements with this tag name whose attribute
    /// relates to the value as the operator says.
    AttributeSelector { tag_name: String, op: AttributeSelectorOp, attribute: String, value: String },
    /// `.name`: the elements whose attribute `class` is exactly this name.
    ClassSelector { class_name: String },
}

/// The operator of an attribute selector.
#[derive(Debug, PartialEq)]
pub enum AttributeSelectorOp {
    /// `=`: the attribute's value is the given one.
    Eq,
    /// `~=`: the given value is one of the words of the attribute's value.
    Contain,
}

/// A declaration: a property name and its value.
#[derive(Debug, PartialEq)]
pub struct Declaration {
    pub name: String,
    pub value: CSSValue,
}

/// The value of a property.
#[derive(Debug)]
pub enum CSSValue {
    Keyword(String),
}

/// The value of a property, as plain data.
pub enum CssValueView {
    Keyword(Seq<char>),
}

/// A declaration, as plain data.
pub struct DeclarationView {
    pub name: Seq<char>,
    pub value: CssValueView,
}

/// A simple selector, as plain data.
pub enum SelectorView {
    Universal,
    Type { tag_name: Seq<char> },
    Attribute { tag_name: Seq<char>, op: AttributeSelectorOp, attribute: Seq<char>, value: Seq<char> },
    Class { class_name: Seq<char> },
}

/// A rule, as plain data.
pub struct RuleView {
    pub selectors: Seq<SelectorView>,
    pub declarations: Seq<DeclarationView>,
}

/// A stylesheet, as plain data.
pub struct StylesheetView {
    pub rules: Seq<RuleView>,
}

impl View for CSSValue {
    type V = CssValueView;

    open spec fn view(&self) -> CssValueView {
        match self {
            CSSValue::Keyword(k) => CssValueView::Keyword(k@),
        }
    }
}

impl Clone for CSSValue {
    fn clone(&self) -> (r: Self)
        ensures
            r == *self,
    {
        match self {
            CSSValue::Keyword(k) => CSSValue::Keyword(k.clone()),
        }
    }
}

impl PartialEq for CSSValue {
    fn eq(&self, other: &Self) -> (r: bool) {
        match (self, other) {
            (CSSValue::Keyword(a), CSSValue::Keyword(b)) => *a == *b,
        }
    }
}

impl PartialEqSpecImpl for CSSValue {
    open spec fn obeys_eq_spec() -> bool {
        true
    }

    open spec fn eq_spec(&self, other: &Self) -> bool {
        self@ == other@
    }
}

impl View for Declaration {
    type V = DeclarationView;

    open spec fn view(&self) -> DeclarationView {
        DeclarationView { name: self.name@, value: self.value@ }
    }
}

impl View for SimpleSelector {
    type V = SelectorView;

    open spec fn view(&self) -> SelectorView {
        match self {
            SimpleSelector::UniversalSelector => SelectorView::Universal,
            SimpleSelector::TypeSelector { tag_name } => SelectorView::Type { tag_name: tag_name@ },
            SimpleSelector::AttributeSelector { tag_name, op, attribute, value } => {
                SelectorView::Attribute {
                    tag_name: tag_name@,
                    op: *op,
                    attribute: attribute@,
                    value: value@,
                }
            },
            SimpleSelector::ClassSelector { class_name } => SelectorView::Class {
                class_name: class_name@,
            },
        }
    }
}

/// The selectors of a list, as plain data.
pub open spec fn selector_views(v: Seq<SimpleSelector>) -> Seq<SelectorView> {
    Seq::new(v.len(), |i: int| v[i]@)
}

/// The declarations of a list, as plain data.
pub open spec fn declaration_views(v: Seq<Declaration>) -> Seq<DeclarationView> {
    Seq::new(v.len(), |i: int| v[i]@)
}

/// The rules of a list, as plain data.
pub open spec fn rule_views(v: Seq<Rule>) -> Seq<RuleView> {
    Seq::new(v.len(), |i: int| v[i]@)
}

impl View for Rule {
    type V = RuleView;

    open spec fn view(&self) -> RuleView {
        RuleView {
            selectors: selector_views(self.selectors@),
            declarations: declaration_views(self.declarations@),
        }
    }
}

impl View for Stylesheet {
    type V = StylesheetView;

    open spec fn view(&self) -> StylesheetView {
        StylesheetView { rules: rule_views(self.rules@) }
    }
}

/// Whether the selector matches the node.
///
/// The universal selector matches every node, the others only elements. A type selector
/// asks for the tag name. An attribute selector asks for the tag name and for the
/// attribute: with `=` its value is the given one, with `~=` the given value is one of
/// the words that white space separates in it. A class selector asks that the attribute
/// `class` be exactly the given name.
pub open spec fn selector_matches(selector: SelectorView, node: NodeView) -> bool {
    match selector {
        SelectorView::Universal => true,
        SelectorView::Type { tag_name } => node.node_type matches NodeTypeView::Element(e)
            && e.tag_name == tag_name,
        SelectorView::Attribute { tag_name, op, attribute, value } => {
            &&& node.node_type matches NodeTypeView::Element(e)
            &&& e.tag_name == tag_name
            &&& e.attributes.contains_key(attribute)
            &&& match op {
                AttributeSelectorOp::Eq => e.attributes[attribute] == value,
                AttributeSelectorOp::Contain => has_word(e.attributes[attribute], value),
            }
        },
        SelectorView::Class { class_name } => {
            &&& node.node_type matches NodeTypeView::Element(e)
            &&& e.attributes.contains_key("class"@)
            &&& e.attributes["class"@] == class_name
        },
    }
}

/// Whether the rule applies to the node: whether any of its selectors matches it.
pub open spec fn rule_matches(rule: RuleView, node: NodeView) -> bool {
    exists|i: int| 0 <= i < rule.selectors.len() && selector_matches(#[trigger] rule.selectors[i], node)
}

/// An attribute selector with `~=` matches an element by one word of the attribute's
/// value, where the selector with `=` does not: it asks for the whole value. With the
/// value `inline bold`, `[class~=bold]` matches and `[class=bold]` does not.
pub proof fn lemma_contain_matches_a_word(
    node: NodeView,
    tag_name: Seq<char>,
    attribute: Seq<char>,
    first: Seq<char>,
    second: Seq<char>,
)
    requires
        node.node_type matches NodeTypeView::Element(e) && e.tag_name == tag_name
            && e.attributes.contains_key(attribute) && e.attributes[attribute] == first + seq![' ']
            + second,
        first.len() > 0,
        second.len() > 0,
        forall|k: int| 0 <= k < first.len() ==> !is_space(#[trigger] first[k]),
        forall|k: int| 0 <= k < second.len() ==> !is_space(#[trigger] second[k]),
    ensures
        selector_matches(
            SelectorView::Attribute {
                tag_name,
                op: AttributeSelectorOp::Contain,
                attribute,
                value: second,
            },
            node,
        ),
        selector_matches(
            SelectorView::Attribute {
                tag_name,
                op: AttributeSelectorOp::Contain,
                attribute,
                value: first,
            },
            node,
        ),
        !selector_matches(
            SelectorView::Attribute { tag_name, op: AttributeSelectorOp::Eq, attribute, value: second },
            node,
        ),
        selector_matches(
            SelectorView::Attribute {
                tag_name,
                op: AttributeSelectorOp::Eq,
                attribute,
                value: first + seq![' '] + second,
            },
            node,
        ),
{
    lemma_words_of_pair(first, second);
}

impl Stylesheet {
    /// A stylesheet of the given rules.
    pub fn new(rules: Vec<Rule>) -> (sheet: Self)
        ensures
            sheet.rules == rules,
            sheet@.rules == rule_views(rules@),
    {
        Stylesheet { rules }
    }
}

impl Rule {
    /// Whether the rule applies to the node: whether any of its selectors matches it.
    pub fn matches(&self, node: &Box<Node>) -> (b: bool)
        ensures
            b == rule_matches(self@, node@),
    {
        let n = self.selectors.len();
        let mut i: usize = 0;
        while i < n
            invariant
                0 <= i <= n,
                n == self.selectors@.len(),
                forall|j: int| 0 <= j < i ==> !selector_matches(#[trigger] self@.selectors[j], node@),
            decreases n - i,
        {
            if self.selectors[i].matches(node) {
                assert(selector_matches(self@.selectors[i as int], node@));
                return true;
            }
            i += 1;
        }
        false
    }
}

impl SimpleSelector {
    /// Whether the selector matches the node.
    pub fn matches(&self, node: &Box<Node>) -> (b: bool)
        ensures
            b == selector_matches(self@, node@),
    {
        proof {
            node.lemma_model();
        }
        match self {
            SimpleSelector::UniversalSelector => true,
            SimpleSelector::TypeSelector { tag_name } => match &node.node_type {
                NodeType::Element(e) => e.tag_name == *tag_name,
                NodeType::Text(_) => false,
            },
            SimpleSelector::AttributeSelector { tag_name, op, attribute, value } => {
                match &node.node_type {
                    NodeType::Element(e) => {
                        if e.tag_name != *tag_name {
                            return false;
                        }
                        let found = e.attributes.get(attribute.as_str());
                        proof {
                            e.attributes.lemma_content();
                        }
                        match found {
                            Some(v) => match op {
                                AttributeSelectorOp::Eq => *v == *value,
                                AttributeSelectorOp::Contain => contains_word(
                                    v.as_str(),
                                    value.as_str(),
                                ),
                            },
                            None => false,
                        }
                    },
                    NodeType::Text(_) => false,
                }
            },
            SimpleSelector::ClassSelector { class_name } => {
                match &node.node_type {
                    NodeType::Element(e) => {
                        let found = e.attributes.get("class");
                        proof {
                            e.attributes.lemma_content();
                        }
                        match found {
                            Some(v) => *v == *class_name,
                            None => false,
                        }
                    },
                    NodeType::Text(_) => false,
                }
            },
        }
    }
}

/// A keyword, `name`, read at `i`.
pub open spec fn css_value_at(s: Seq<char>, i: int) -> Parsed<CssValueView> {
    let a = name_end(s, i);
    if 0 <= i < a {
        Parsed::Done { value: CssValueView::Keyword(s.subrange(i, a)), next: a }
    } else {
        Parsed::Miss
    }
}

/// `declaration := name S* ':' S* name`, read at `i`.
pub open spec fn declaration_at(s: Seq<char>, i: int) -> Parsed<DeclarationView> {
    let a = name_end(s, i);
    let b = blank_end(s, a);
    let c = blank_end(s, b + 1);
    if !(0 <= i < a) {
        Parsed::Miss
    } else if !is_at(s, b, ':') {
        Parsed::Fail
    } else {
        match css_value_at(s, c) {
            Parsed::Done { value, next } => Parsed::Done {
                value: DeclarationView { name: s.subrange(i, a), value },
                next,
            },
            _ => Parsed::Fail,
        }
    }
}

/// Declarations, each followed by white space, with `;` and white space between them
/// and, if one likes, behind the last; read at `i`. Where no declaration begins the
/// list ends; one that begins and goes wrong fails the list.
pub open spec fn declarations_at(s: Seq<char>, i: int) -> Parsed<Seq<DeclarationView>>
    decreases s.len() - i,
{
    match declaration_at(s, i) {
        Parsed::Miss => Parsed::Done { value: Seq::empty(), next: i },
        Parsed::Fail => Parsed::Fail,
        Parsed::Done { value, next } => {
            let j = blank_end(s, next);
            let k = blank_end(s, j + 1);
            if !(i < j <= s.len()) {
                Parsed::Fail
            } else if is_at(s, j, ';') && j < k <= s.len() {
                prepend(seq![value], declarations_at(s, k))
            } else {
                Parsed::Done { value: seq![value], next: j }
            }
        },
    }
}

/// `*`, read at `i`.
pub open spec fn universal_selector_at(s: Seq<char>, i: int) -> Parsed<SelectorView> {
    if is_at(s, i, '*') {
        Parsed::Done { value: SelectorView::Universal, next: i + 1 }
    } else {
        Parsed::Miss
    }
}

/// `'.' name`, read at `i`.
pub open spec fn class_selector_at(s: Seq<char>, i: int) -> Parsed<SelectorView> {
    let a = name_end(s, i + 1);
    if !is_at(s, i, '.') {
        Parsed::Miss
    } else if a == i + 1 {
        Parsed::Fail
    } else {
        Parsed::Done { value: SelectorView::Class { class_name: s.subrange(i + 1, a) }, next: a }
    }
}

/// `op := '=' | '~='`, read at `i`.
pub open spec fn selector_op_at(s: Seq<char>, i: int) -> Parsed<AttributeSelectorOp> {
    if is_at(s, i, '=') {
        Parsed::Done { value: AttributeSelectorOp::Eq, next: i + 1 }
    } else if !is_at(s, i, '~') {
        Parsed::Miss
    } else if is_at(s, i + 1, '=') {
        Parsed::Done { value: AttributeSelectorOp::Contain, next: i + 2 }
    } else {
        Parsed::Fail
    }
}

/// `name S* ('[' S* name op name ']')?`, read at `i`: a type selector, or with the part
/// in brackets an attribute selector. The white space behind the tag name is read in
/// both cases.
pub open spec fn type_or_attribute_selector_at(s: Seq<char>, i: int) -> Parsed<SelectorView> {
    let a = name_end(s, i);
    let b = blank_end(s, a);
    let c = blank_end(s, b + 1);
    let d = name_end(s, c);
    let tag_name = s.subrange(i, a);
    if !(0 <= i < a) {
        Parsed::Miss
    } else if !is_at(s, b, '[') {
        Parsed::Done { value: SelectorView::Type { tag_name }, next: b }
    } else if d == c {
        Parsed::Fail
    } else {
        match selector_op_at(s, d) {
            Parsed::Done { value: op, next: e } => {
                let f = name_end(s, e);
                if e < f && is_at(s, f, ']') {
                    Parsed::Done {
                        value: SelectorView::Attribute {
                            tag_name,
                            op,
                            attribute: s.subrange(c, d),
                            value: s.subrange(e, f),
                        },
                        next: f + 1,
                    }
                } else {
                    Parsed::Fail
                }
            },
            _ => Parsed::Fail,
        }
    }
}

/// `selector := '*' | '.' name | name ...`, read at `i`: the first of the three that
/// applies.
pub open spec fn simple_selector_at(s: Seq<char>, i: int) -> Parsed<SelectorView> {
    match universal_selector_at(s, i) {
        Parsed::Miss => match class_selector_at(s, i) {
            Parsed::Miss => type_or_attribute_selector_at(s, i),
            p => p,
        },
        p => p,
    }
}

/// What follows a selector and its white space in a list: nothing, or `,`, white space
/// and a selector that must be there, and so on; read at `i`.
pub open spec fn selectors_tail_at(s: Seq<char>, i: int) -> Parsed<Seq<SelectorView>>
    decreases s.len() - i,
{
    if !is_at(s, i, ',') {
        Parsed::Done { value: Seq::empty(), next: i }
    } else {
        match simple_selector_at(s, blank_end(s, i + 1)) {
            Parsed::Done { value, next } => {
                let j = blank_end(s, next);
                if i < j <= s.len() {
                    prepend(seq![value], selectors_tail_at(s, j))
                } else {
                    Parsed::Fail
                }
            },
            _ => Parsed::Fail,
        }
    }
}

/// Selectors, each followed by white space, with `,` and white space between them;
/// read at `i`. Where no selector begins the list is empty.
pub open spec fn selectors_at(s: Seq<char>, i: int) -> Parsed<Seq<SelectorView>> {
    match simple_selector_at(s, i) {
        Parsed::Miss => Parsed::Done { value: Seq::empty(), next: i },
        Parsed::Fail => Parsed::Fail,
        Parsed::Done { value, next } => prepend(seq![value], selectors_tail_at(s, blank_end(s, next))),
    }
}

/// `rule := selectors S* '{' S* declarations S* '}'`, read at `i`. The rule does not
/// apply where neither a selector nor `{` stands.
pub open spec fn rule_at(s: Seq<char>, i: int) -> Parsed<RuleView> {
    match selectors_at(s, i) {
        Parsed::Done { value: selectors, next } => {
            let j = blank_end(s, next);
            if !is_at(s, j, '{') {
                if j == i {
                    Parsed::Miss
                } else {
                    Parsed::Fail
                }
            } else {
                match declarations_at(s, blank_end(s, j + 1)) {
                    Parsed::Done { value: declarations, next: k } => {
                        let m = blank_end(s, k);
                        if is_at(s, m, '}') {
                            Parsed::Done {
                                value: RuleView { selectors, declarations },
                                next: m + 1,
                            }
                        } else {
                            Parsed::Fail
                        }
                    },
                    _ => Parsed::Fail,
                }
            }
        },
        _ => Parsed::Fail,
    }
}

/// What follows a rule: white space and a further rule, and so on; read at `i`. The
/// rules end where, without white space, no rule applies; behind white space a rule
/// must follow.
pub open spec fn rules_tail_at(s: Seq<char>, i: int) -> Parsed<Seq<RuleView>>
    decreases s.len() - i,
{
    let k = blank_end(s, i);
    match rule_at(s, k) {
        Parsed::Done { value, next } => if i < next <= s.len() {
            prepend(seq![value], rules_tail_at(s, next))
        } else {
            Parsed::Fail
        },
        Parsed::Miss => if k == i {
            Parsed::Done { value: Seq::empty(), next: i }
        } else {
            Parsed::Fail
        },
        Parsed::Fail => Parsed::Fail,
    }
}

/// `stylesheet := S* (rule (S* rule)*)?`, read at `i`.
pub open spec fn rules_at(s: Seq<char>, i: int) -> Parsed<Seq<RuleView>> {
    let k = blank_end(s, i);
    match rule_at(s, k) {
        Parsed::Done { value, next } => prepend(seq![value], rules_tail_at(s, next)),
        Parsed::Miss => Parsed::Done { value: Seq::empty(), next: k },
        Parsed::Fail => Parsed::Fail,
    }
}

/// The rules of a whole stylesheet, or why it has none.
pub open spec fn stylesheet(s: Seq<char>) -> Result<Seq<RuleView>, ParseError> {
    match rules_at(s, 0) {
        Parsed::Done { value, next } => if next == s.len() {
            Ok(value)
        } else {
            Err(ParseError::Trailing { offset: next as usize })
        },
        _ => Err(ParseError::Malformed),
    }
}

fn read_css_value(s: &[char], i: usize) -> (r: Result<(CSSValue, usize), ParseError>)
    requires
        i <= s@.len(),
    ensures
        match r {
            Ok((v, j)) => css_value_at(s@, i as int) == (Parsed::Done { value: v@, next: j as int })
                && i < j <= s@.len(),
            Err(e) => css_value_at(s@, i as int) is Miss && e == ParseError::NoMatch,
        },
{
    let a = skip(s, i, CharClass::Letter);
    if a == i {
        return Err(ParseError::NoMatch);
    }
    Ok((CSSValue::Keyword(from_chars(s, i, a)), a))
}

fn read_declaration(s: &[char], i: usize) -> (r: Result<(Declaration, usize), ParseError>)
    requires
        i <= s@.len(),
    ensures
        match r {
            Ok((d, j)) => declaration_at(s@, i as int) == (Parsed::Done {
                value: d@,
                next: j as int,
            }) && i < j <= s@.len(),
            Err(e) => !(declaration_at(s@, i as int) is Done) && e == declaration_at(
                s@,
                i as int,
            ).error(),
        },
{
    let a = skip(s, i, CharClass::Letter);
    if a == i {
        return Err(ParseError::NoMatch);
    }
    let b = skip(s, a, CharClass::Space);
    if !at(s, b, ':') {
        return Err(ParseError::Malformed);
    }
    let c = skip(s, b + 1, CharClass::Space);
    match read_css_value(s, c) {
        Ok((value, j)) => Ok((Declaration { name: from_chars(s, i, a), value }, j)),
        Err(_) => Err(ParseError::Malformed),
    }
}

fn read_declarations(s: &[char], i: usize) -> (r: Result<(Vec<Declaration>, usize), ParseError>)
    requires
        i <= s@.len(),
    ensures
        match r {
            Ok((v, j)) => declarations_at(s@, i as int) == (Parsed::Done {
                value: declaration_views(v@),
                next: j as int,
            }) && i <= j <= s@.len(),
            Err(e) => declarations_at(s@, i as int) is Fail && e == ParseError::Malformed,
        },
{
    let mut list: Vec<Declaration> = Vec::new();
    let mut pos: usize = i;
    proof {
        let p = declarations_at(s@, i as int);
        if let Parsed::Done { value, next } = p {
            assert(declaration_views(list@) + value =~= value);
        }
    }
    loop
        invariant
            i <= pos <= s@.len(),
            declarations_at(s@, i as int) == prepend(
                declaration_views(list@),
                declarations_at(s@, pos as int),
            ),
        decreases s@.len() - pos,
    {
        let ghost before = declaration_views(list@);
        match read_declaration(s, pos) {
            Ok((d, next)) => {
                let ghost dv = d@;
                list.push(d);
                let j = skip(s, next, CharClass::Space);
                proof {
                    assert(declaration_views(list@) =~= before.push(dv));
                }
                if at(s, j, ';') {
                    let k = skip(s, j + 1, CharClass::Space);
                    proof {
                        let tail = declarations_at(s@, k as int);
                        if let Parsed::Done { value: rest, next: end } = tail {
                            assert(before + (seq![dv] + rest) =~= before.push(dv) + rest);
                        }
                    }
                    pos = k;
                } else {
                    proof {
                        assert(before + seq![dv] =~= before.push(dv));
                    }
                    return Ok((list, j));
                }
            },
            Err(ParseError::NoMatch) => {
                proof {
                    assert(before + Seq::<DeclarationView>::empty() =~= before);
                }
                return Ok((list, pos));
            },
            Err(_) => {
                return Err(ParseError::Malformed);
            },
        }
    }
}

fn read_universal_selector(s: &[char], i: usize) -> (r: Result<(SimpleSelector, usize), ParseError>)
    requires
        i <= s@.len(),
    ensures
        match r {
            Ok((sel, j)) => universal_selector_at(s@, i as int) == (Parsed::Done {
                value: sel@,
                next: j as int,
            }) && i < j <= s@.len(),
            Err(e) => universal_selector_at(s@, i as int) is Miss && e == ParseError::NoMatch,
        },
{
    if at(s, i, '*') {
        Ok((SimpleSelector::UniversalSelector, i + 1))
    } else {
        Err(ParseError::NoMatch)
    }
}

fn read_class_selector(s: &[char], i: usize) -> (r: Result<(SimpleSelector, usize), ParseError>)
    requires
        i <= s@.len(),
    ensures
        match r {
            Ok((sel, j)) => class_selector_at(s@, i as int) == (Parsed::Done {
                value: sel@,
                next: j as int,
            }) && i < j <= s@.len(),
            Err(e) => !(class_selector_at(s@, i as int) is Done) && e == class_selector_at(
                s@,
                i as int,
            ).error(),
        },
{
    if !at(s, i, '.') {
        return Err(ParseError::NoMatch);
    }
    let a = skip(s, i + 1, CharClass::Letter);
    if a == i + 1 {
        return Err(ParseError::Malformed);
    }
    Ok((SimpleSelector::ClassSelector { class_name: from_chars(s, i + 1, a) }, a))
}

fn read_selector_op(s: &[char], i: usize) -> (r: Result<(AttributeSelectorOp, usize), ParseError>)
    requires
        i <= s@.len(),
    ensures
        match r {
            Ok((op, j)) => selector_op_at(s@, i as int) == (Parsed::Done {
                value: op,
                next: j as int,
            }) && i < j <= s@.len(),
            Err(e) => !(selector_op_at(s@, i as int) is Done) && e == selector_op_at(
                s@,
                i as int,
            ).error(),
        },
{
    if at(s, i, '=') {
        Ok((AttributeSelectorOp::Eq, i + 1))
    } else if !at(s, i, '~') {
        Err(ParseError::NoMatch)
    } else if at(s, i + 1, '=') {
        Ok((AttributeSelectorOp::Contain, i + 2))
    } else {
        Err(ParseError::Malformed)
    }
}

fn read_type_or_attribute_selector(s: &[char], i: usize) -> (r: Result<
    (SimpleSelector, usize),
    ParseError,
>)
    requires
        i <= s@.len(),
    ensures
        match r {
            Ok((sel, j)) => type_or_attribute_selector_at(s@, i as int) == (Parsed::Done {
                value: sel@,
                next: j as int,
            }) && i < j <= s@.len(),
            Err(e) => !(type_or_attribute_selector_at(s@, i as int) is Done) && e
                == type_or_attribute_selector_at(s@, i as int).error(),
        },
{
    let a = skip(s, i, CharClass::Letter);
    if a == i {
        return Err(ParseError::NoMatch);
    }
    let b = skip(s, a, CharClass::Space);
    if !at(s, b, '[') {
        return Ok((SimpleSelector::TypeSelector { tag_name: from_chars(s, i, a) }, b));
    }
    let c = skip(s, b + 1, CharClass::Space);
    let d = skip(s, c, CharClass::Letter);
    if d == c {
        return Err(ParseError::Malformed);
    }
    match read_selector_op(s, d) {
        Ok((op, e)) => {
            let f = skip(s, e, CharClass::Letter);
            if f == e || !at(s, f, ']') {
                return Err(ParseError::Malformed);
            }
            Ok(
                (
                    SimpleSelector::AttributeSelector {
                        tag_name: from_chars(s, i, a),
                        op,
                        attribute: from_chars(s, c, d),
                        value: from_chars(s, e, f),
                    },
                    f + 1,
                ),
            )
        },
        Err(_) => Err(ParseError::Malformed),
    }
}

fn read_simple_selector(s: &[char], i: usize) -> (r: Result<(SimpleSelector, usize), ParseError>)
    requires
        i <= s@.len(),
    ensures
        match r {
            Ok((sel, j)) => simple_selector_at(s@, i as int) == (Parsed::Done {
                value: sel@,
                next: j as int,
            }) && i < j <= s@.len(),
            Err(e) => !(simple_selector_at(s@, i as int) is Done) && e == simple_selector_at(
                s@,
                i as int,
            ).error(),
        },
{
    match read_universal_selector(s, i) {
        Err(ParseError::NoMatch) => match read_class_selector(s, i) {
            Err(ParseError::NoMatch) => read_type_or_attribute_selector(s, i),
            r => r,
        },
        r => r,
    }
}

fn read_selectors(s: &[char], i: usize) -> (r: Result<(Vec<Selector>, usize), ParseError>)
    requires
        i <= s@.len(),
    ensures
        match r {
            Ok((v, j)) => selectors_at(s@, i as int) == (Parsed::Done {
                value: selector_views(v@),
                next: j as int,
            }) && i <= j <= s@.len() && (v@.len() == 0 ==> j == i),
            Err(e) => selectors_at(s@, i as int) is Fail && e == ParseError::Malformed,
        },
{
    let mut list: Vec<Selector> = Vec::new();
    let mut pos: usize = i;
    match read_simple_selector(s, i) {
        Ok((sel, next)) => {
            let ghost sv = sel@;
            list.push(sel);
            pos = skip(s, next, CharClass::Space);
            proof {
                assert(selector_views(list@) =~= seq![sv]);
            }
        },
        Err(ParseError::NoMatch) => {
            proof {
                assert(selector_views(list@) =~= Seq::<SelectorView>::empty());
            }
            return Ok((list, i));
        },
        Err(_) => {
            return Err(ParseError::Malformed);
        },
    }
    loop
        invariant
            i < pos <= s@.len(),
            list@.len() > 0,
            selectors_at(s@, i as int) == prepend(
                selector_views(list@),
                selectors_tail_at(s@, pos as int),
            ),
        decreases s@.len() - pos,
    {
        let ghost before = selector_views(list@);
        if !at(s, pos, ',') {
            proof {
                assert(before + Seq::<SelectorView>::empty() =~= before);
            }
            return Ok((list, pos));
        }
        let k = skip(s, pos + 1, CharClass::Space);
        match read_simple_selector(s, k) {
            Ok((sel, next)) => {
                let ghost sv = sel@;
                list.push(sel);
                let j = skip(s, next, CharClass::Space);
                proof {
                    assert(selector_views(list@) =~= before.push(sv));
                    let tail = selectors_tail_at(s@, j as int);
                    if let Parsed::Done { value: rest, next: end } = tail {
                        assert(before + (seq![sv] + rest) =~= before.push(sv) + rest);
                    }
                }
                pos = j;
            },
            Err(_) => {
                return Err(ParseError::Malformed);
            },
        }
    }
}

fn read_rule(s: &[char], i: usize) -> (r: Result<(Rule, usize), ParseError>)
    requires
        i <= s@.len(),
    ensures
        match r {
            Ok((rule, j)) => rule_at(s@, i as int) == (Parsed::Done { value: rule@, next: j as int })
                && i < j <= s@.len(),
            Err(e) => !(rule_at(s@, i as int) is Done) && e == rule_at(s@, i as int).error(),
        },
{
    match read_selectors(s, i) {
        Ok((selectors, next)) => {
            let j = skip(s, next, CharClass::Space);
            if !at(s, j, '{') {
                if j == i {
                    return Err(ParseError::NoMatch);
                } else {
                    return Err(ParseError::Malformed);
                }
            }
            let k = skip(s, j + 1, CharClass::Space);
            match read_declarations(s, k) {
                Ok((declarations, end)) => {
                    let m = skip(s, end, CharClass::Space);
                    if at(s, m, '}') {
                        Ok((Rule { selectors, declarations }, m + 1))
                    } else {
                        Err(ParseError::Malformed)
                    }
                },
                Err(_) => Err(ParseError::Malformed),
            }
        },
        Err(_) => Err(ParseError::Malformed),
    }
}

fn read_rules(s: &[char], i: usize) -> (r: Result<(Vec<Rule>, usize), ParseError>)
    requires
        i <= s@.len(),
    ensures
        match r {
            Ok((v, j)) => rules_at(s@, i as int) == (Parsed::Done {
                value: rule_views(v@),
                next: j as int,
            }) && i <= j <= s@.len(),
            Err(e) => rules_at(s@, i as int) is Fail && e == ParseError::Malformed,
        },
{
    let mut list: Vec<Rule> = Vec::new();
    let start = skip(s, i, CharClass::Space);
    let mut pos: usize = start;
    match read_rule(s, start) {
        Ok((rule, next)) => {
            let ghost rv = rule@;
            list.push(rule);
            pos = next;
            proof {
                assert(rule_views(list@) =~= seq![rv]);
            }
        },
        Err(ParseError::NoMatch) => {
            proof {
                assert(rule_views(list@) =~= Seq::<RuleView>::empty());
            }
            return Ok((list, start));
        },
        Err(_) => {
            return Err(ParseError::Malformed);
        },
    }
    loop
        invariant
            i <= pos <= s@.len(),
            rules_at(s@, i as int) == prepend(rule_views(list@), rules_tail_at(s@, pos as int)),
        decreases s@.len() - pos,
    {
        let ghost before = rule_views(list@);
        let k = skip(s, pos, CharClass::Space);
        match read_rule(s, k) {
            Ok((rule, next)) => {
                let ghost rv = rule@;
                list.push(rule);
                proof {
                    assert(rule_views(list@) =~= before.push(rv));
                    let tail = rules_tail_at(s@, next as int);
                    if let Parsed::Done { value: rest, next: end } = tail {
                        assert(before + (seq![rv] + rest) =~= before.push(rv) + rest);
                    }
                }
                pos = next;
            },
            Err(ParseError::NoMatch) => {
                if k == pos {
                    proof {
                        assert(before + Seq::<RuleView>::empty() =~= before);
                    }
                    return Ok((list, pos));
                } else {
                    return Err(ParseError::Malformed);
                }
            },
            Err(_) => {
                return Err(ParseError::Malformed);
            },
        }
    }
}

/// Reads one declaration, `name: value`, at the beginning of `input`, and returns it
/// with the rest of the input.
pub fn declaration<'a>(input: &'a str) -> (r: Result<(Declaration, &'a str), ParseError>)
    ensures
        match r {
            Ok((d, rest)) => declaration_at(input@, 0) matches Parsed::Done { value, next } && d@
                == value && rest@ == input@.subrange(next, input@.len() as int),
            Err(e) => !(declaration_at(input@, 0) is Done) && e == declaration_at(input@, 0).error(),
        },
{
    let s = to_chars(input);
    match read_declaration(s.as_slice(), 0) {
        Ok((d, j)) => Ok((d, rest_of(input, j))),
        Err(e) => Err(e),
    }
}

/// Reads declarations separated by `;` at the beginning of `input`, and returns them
/// with the rest of the input.
pub fn declarations<'a>(input: &'a str) -> (r: Result<(Vec<Declaration>, &'a str), ParseError>)
    ensures
        match r {
            Ok((v, rest)) => declarations_at(input@, 0) matches Parsed::Done { value, next }
                && declaration_views(v@) == value && rest@ == input@.subrange(
                next,
                input@.len() as int,
            ),
            Err(e) => declarations_at(input@, 0) is Fail && e == ParseError::Malformed,
        },
{
    let s = to_chars(input);
    match read_declarations(s.as_slice(), 0) {
        Ok((v, j)) => Ok((v, rest_of(input, j))),
        Err(e) => Err(e),
    }
}

/// Reads one selector at the beginning of `input`, and returns it with the rest of the
/// input.
pub fn simple_selector<'a>(input: &'a str) -> (r: Result<(SimpleSelector, &'a str), ParseError>)
    ensures
        match r {
            Ok((sel, rest)) => simple_selector_at(input@, 0) matches Parsed::Done { value, next }
                && sel@ == value && rest@ == input@.subrange(next, input@.len() as int),
            Err(e) => !(simple_selector_at(input@, 0) is Done) && e == simple_selector_at(
                input@,
                0,
            ).error(),
        },
{
    let s = to_chars(input);
    match read_simple_selector(s.as_slice(), 0) {
        Ok((sel, j)) => Ok((sel, rest_of(input, j))),
        Err(e) => Err(e),
    }
}

/// Reads selectors separated by `,` at the beginning of `input`, and returns them with
/// the rest of the input.
pub fn selectors<'a>(input: &'a str) -> (r: Result<(Vec<Selector>, &'a str), ParseError>)
    ensures
        match r {
            Ok((v, rest)) => selectors_at(input@, 0) matches Parsed::Done { value, next }
                && selector_views(v@) == value && rest@ == input@.subrange(
                next,
                input@.len() as int,
            ),
            Err(e) => selectors_at(input@, 0) is Fail && e == ParseError::Malformed,
        },
{
    let s = to_chars(input);
    match read_selectors(s.as_slice(), 0) {
        Ok((v, j)) => Ok((v, rest_of(input, j))),
        Err(e) => Err(e),
    }
}

/// Reads one rule, selectors and declarations in braces, at the beginning of `input`,
/// and returns it with the rest of the input.
pub fn rule<'a>(input: &'a str) -> (r: Result<(Rule, &'a str), ParseError>)
    ensures
        match r {
            Ok((rule, rest)) => rule_at(input@, 0) matches Parsed::Done { value, next } && rule@
                == value && rest@ == input@.subrange(next, input@.len() as int),
            Err(e) => !(rule_at(input@, 0) is Done) && e == rule_at(input@, 0).error(),
        },
{
    let s = to_chars(input);
    match read_rule(s.as_slice(), 0) {
        Ok((rule, j)) => Ok((rule, rest_of(input, j))),
        Err(e) => Err(e),
    }
}

/// Reads rules at the beginning of `input`, and returns them with the rest of the
/// input.
pub fn rules<'a>(input: &'a str) -> (r: Result<(Vec<Rule>, &'a str), ParseError>)
    ensures
        match r {
            Ok((v, rest)) => rules_at(input@, 0) matches Parsed::Done { value, next }
                && rule_views(v@) == value && rest@ == input@.subrange(next, input@.len() as int),
            Err(e) => rules_at(input@, 0) is Fail && e == ParseError::Malformed,
        },
{
    let s = to_chars(input);
    match read_rules(s.as_slice(), 0) {
        Ok((v, j)) => Ok((v, rest_of(input, j))),
        Err(e) => Err(e),
    }
}

/// Parses a stylesheet. The whole input must be made of rules: a rule that goes wrong
/// fails the parse, and so does anything that is left behind the last rule.
pub fn parse(raw: &str) -> (r: Result<Stylesheet, ParseError>)
    ensures
        match r {
            Ok(sheet) => stylesheet(raw@) == Ok::<Seq<RuleView>, ParseError>(sheet@.rules),
            Err(e) => stylesheet(raw@) == Err::<Seq<RuleView>, ParseError>(e),
        },
{
    let s = to_chars(raw);
    match read_rules(s.as_slice(), 0) {
        Ok((v, end)) => {
            if end == s.len() {
                Ok(Stylesheet::new(v))
            } else {
                Err(ParseError::Trailing { offset: end })
            }
        },
        Err(e) => Err(e),
    }
}

} // verus!
