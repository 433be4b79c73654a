//! The style resolver: which declarations apply to a node, what they add up to, and the
//! styled tree that is left once the nodes that are not displayed are taken out.

use crate::css::{
    rule_matches, rule_views, CSSValue, CssValueView, DeclarationView, RuleView, Stylesheet,
    StylesheetView,
};
use crate::dom::{views, Node, NodeType, NodeTypeView, NodeView};
use crate::string_map::StringMap;
use vstd::prelude::*;
use vstd::std_specs::cmp::PartialEqSpecImpl;

verus! {

/// The properties of a node: a map from property names to values.
pub type PropertyMap = StringMap<CSSValue>;

/// How a node takes part in layout.
#[derive(Debug, PartialEq)]
pub enum Display {
    /// Part of a line.
    Inline,
    /// A block of its own.
    Block,
    /// Not displayed, and nothing below it either.
    Hidden,
}

/// A node that is displayed, with its properties and those of its children that are
/// displayed.
#[derive(Debug, PartialEq)]
pub struct StyledNode<'a> {
    pub node_type: &'a NodeType,
    pub properties: PropertyMap,
    pub children: Vec<StyledNode<'a>>,
}

/// A styled tree, as plain data.
pub struct StyledView {
    pub node_type: NodeTypeView,
    pub properties: Map<Seq<char>, CssValueView>,
    pub children: Seq<StyledView>,
}

impl StringMap<CSSValue> {
    /// Whether every entry of `self` is an entry of `other`.
    pub fn included_in(&self, other: &Self) -> (r: bool)
        ensures
            r == self.content().submap_of(other.content()),
    {
        let n = self.len();
        let _ = other.len();
        let mut i: usize = 0;
        while i < n
            invariant
                0 <= i <= n,
                n == self.keys().len(),
                self.wf(),
                other.wf(),
                forall|j: int|
                    0 <= j < i ==> other.content().contains_key(#[trigger] self.keys()[j])
                        && other.content()[self.keys()[j]] == self.content()[self.keys()[j]],
            decreases n - i,
        {
            proof {
                self.lemma_content_at(i as int);
                other.lemma_content();
            }
            let found = other.get(self.key(i).as_str());
            match found {
                Some(v) => {
                    if *v != *self.value(i) {
                        return false;
                    }
                },
                None => {
                    return false;
                },
            }
            i += 1;
        }
        proof {
            assert forall|k: Seq<char>| #[trigger]
                self.content().dom().contains(k) implies other.content().dom().contains(k)
                && self.content()[k] == other.content()[k] by {
                let j = self.keys().index_of(k);
                assert(self.keys().contains(k));
            }
        }
        true
    }
}

impl PartialEq for StringMap<CSSValue> {
    /// Two maps are equal when they hold the same names with the same values, in
    /// whatever order.
    fn eq(&self, other: &Self) -> (r: bool) {
        let r = self.included_in(other) && other.included_in(self);
        proof {
            if r {
                assert(self.content() =~= other.content());
            }
        }
        r
    }
}

impl PartialEqSpecImpl for StringMap<CSSValue> {
    open spec fn obeys_eq_spec() -> bool {
        true
    }

    open spec fn eq_spec(&self, other: &Self) -> bool {
        self.content() == other.content()
    }
}

/// The trees of a list of styled nodes, as plain data.
pub open spec fn styled_views(nodes: Seq<StyledNode>) -> Seq<StyledView> {
    Seq::new(nodes.len(), |i: int| nodes[i].model())
}

impl<'a> StyledNode<'a> {
    /// The styled tree below and including this node, as plain data.
    pub open spec fn model(&self) -> StyledView
        decreases self,
    {
        StyledView {
            node_type: self.node_type@,
            properties: self.properties.content(),
            children: Seq::new(
                self.children@.len(),
                |i: int|
                    if 0 <= i < self.children@.len() {
                        self.children@[i].model()
                    } else {
                        arbitrary()
                    },
            ),
        }
    }

    /// The children of a node's tree are the trees of its children.
    pub proof fn lemma_model(&self)
        ensures
            self@.node_type == self.node_type@,
            self@.properties == self.properties.content(),
            self@.children == styled_views(self.children@),
    {
        assert(self@.children =~= styled_views(self.children@));
    }
}

impl<'a> View for StyledNode<'a> {
    type V = StyledView;

    open spec fn view(&self) -> StyledView {
        self.model()
    }
}

/// The properties that the declarations give, set one after the other: of two
/// declarations of one property the later one stays.
pub open spec fn fold_declarations(declarations: Seq<DeclarationView>) -> Map<
    Seq<char>,
    CssValueView,
>
    decreases declarations.len(),
{
    if declarations.len() == 0 {
        Map::empty()
    } else {
        fold_declarations(declarations.drop_last()).insert(
            declarations.last().name,
            declarations.last().value,
        )
    }
}

/// The declarations of all the rules that apply to the node, in the order of the
/// stylesheet.
pub open spec fn matching_declarations(rules: Seq<RuleView>, node: NodeView) -> Seq<
    DeclarationView,
>
    decreases rules.len(),
{
    if rules.len() == 0 {
        Seq::empty()
    } else if rule_matches(rules.last(), node) {
        matching_declarations(rules.drop_last(), node) + rules.last().declarations
    } else {
        matching_declarations(rules.drop_last(), node)
    }
}

/// The properties of a node under a stylesheet: what the declarations of the rules that
/// apply to it give, the later one winning. Neither what a selector asks beyond that it
/// matches nor the properties of the nodes above count.
pub open spec fn cascade(sheet: StylesheetView, node: NodeView) -> Map<Seq<char>, CssValueView> {
    fold_declarations(matching_declarations(sheet.rules, node))
}

/// How a node with these properties is displayed. Where the property `display` is set,
/// `block` makes a block, `none` hides the node, and every other keyword makes it
/// inline. Where it is not set, an element is a block and text is inline.
pub open spec fn display_of(node_type: NodeTypeView, properties: Map<Seq<char>, CssValueView>) -> Display {
    if properties.contains_key("display"@) {
        match properties["display"@] {
            CssValueView::Keyword(k) => if k == "block"@ {
                Display::Block
            } else if k == "none"@ {
                Display::Hidden
            } else {
                Display::Inline
            },
        }
    } else {
        match node_type {
            NodeTypeView::Element(_) => Display::Block,
            NodeTypeView::Text(_) => Display::Inline,
        }
    }
}

/// The styled tree of a document tree under a stylesheet: `None` where the root is not
/// displayed; else the root with its properties and, in order, the styled trees of
/// those of its children that are displayed.
pub open spec fn styled(node: NodeView, sheet: StylesheetView) -> Option<StyledView>
    decreases node, 0nat,
{
    let properties = cascade(sheet, node);
    if display_of(node.node_type, properties) == Display::Hidden {
        None
    } else {
        Some(
            StyledView {
                node_type: node.node_type,
                properties,
                children: styled_from(node.children, 0, sheet),
            },
        )
    }
}

/// The styled trees of those of the trees `nodes[k..]` that are displayed.
pub open spec fn styled_from(nodes: Seq<NodeView>, k: int, sheet: StylesheetView) -> Seq<StyledView>
    decreases nodes, nodes.len() - k,
{
    if 0 <= k < nodes.len() {
        match styled(nodes[k], sheet) {
            Some(s) => seq![s] + styled_from(nodes, k + 1, sheet),
            None => styled_from(nodes, k + 1, sheet),
        }
    } else {
        Seq::empty()
    }
}

/// Whether every node of the styled tree is displayed.
pub open spec fn visible(s: StyledView) -> bool
    decreases s,
{
    &&& display_of(s.node_type, s.properties) != Display::Hidden
    &&& forall|i: int| 0 <= i < s.children.len() ==> visible(#[trigger] s.children[i])
}

/// One more declaration sets one more property.
pub proof fn lemma_fold_push(declarations: Seq<DeclarationView>, d: DeclarationView)
    ensures
        fold_declarations(declarations.push(d)) == fold_declarations(declarations).insert(
            d.name,
            d.value,
        ),
{
    assert(declarations.push(d).drop_last() =~= declarations);
}

fn display_from(node_type: &NodeType, properties: &PropertyMap) -> (r: Display)
    ensures
        r == display_of(node_type@, properties.content()),
{
    let found = properties.get("display");
    proof {
        properties.lemma_content();
    }
    match found {
        Some(CSSValue::Keyword(k)) => {
            if *k == "block".to_owned() {
                Display::Block
            } else if *k == "none".to_owned() {
                Display::Hidden
            } else {
                Display::Inline
            }
        },
        None => match node_type {
            NodeType::Element(_) => Display::Block,
            NodeType::Text(_) => Display::Inline,
        },
    }
}

impl<'a> StyledNode<'a> {
    /// How the node is displayed: see [`display_of`].
    pub fn display(&self) -> (r: Display)
        ensures
            r == display_of(self@.node_type, self@.properties),
    {
        proof {
            self.lemma_model();
        }
        display_from(self.node_type, &self.properties)
    }

    /// Whether every node of the styled tree is displayed, as the layout engine asks.
    /// The trees that [`to_styled_node`] makes are; one that was put together by hand
    /// need not be.
    pub fn is_visible(&self) -> (b: bool)
        ensures
            b == visible(self@),
        decreases self,
    {
        proof {
            self.lemma_model();
        }
        match self.display() {
            Display::Hidden => {
                return false;
            },
            _ => {},
        }
        let n = self.children.len();
        let mut i: usize = 0;
        while i < n
            invariant
                0 <= i <= n,
                n == self.children@.len(),
                self@.children == styled_views(self.children@),
                forall|j: int| 0 <= j < i ==> visible(#[trigger] self@.children[j]),
            decreases n - i,
        {
            if !self.children[i].is_visible() {
                assert(!visible(self@.children[i as int]));
                return false;
            }
            i += 1;
        }
        true
    }
}

fn resolve(node: &Box<Node>, stylesheet: &Stylesheet) -> (properties: PropertyMap)
    ensures
        properties.content() == cascade(stylesheet@, node@),
        properties.wf(),
{
    let mut properties = PropertyMap::new();
    let ghost mut seen: Seq<DeclarationView> = Seq::empty();
    let ghost rules = stylesheet@.rules;
    let n = stylesheet.rules.len();
    let mut i: usize = 0;
    proof {
        properties.lemma_content_empty();
        assert(rules.take(0) =~= Seq::<RuleView>::empty());
    }
    while i < n
        invariant
            0 <= i <= n,
            n == stylesheet.rules@.len(),
            rules == rule_views(stylesheet.rules@),
            properties.wf(),
            seen == matching_declarations(rules.take(i as int), node@),
            properties.content() == fold_declarations(seen),
        decreases n - i,
    {
        let rule = &stylesheet.rules[i];
        let ghost declared = rule@.declarations;
        proof {
            assert(rules.take(i + 1).drop_last() =~= rules.take(i as int));
            assert(rules.take(i + 1).last() == rule@);
        }
        if rule.matches(node) {
            let m = rule.declarations.len();
            let mut j: usize = 0;
            let ghost before = seen;
            proof {
                assert(before + declared.take(0) =~= before);
            }
            while j < m
                invariant
                    0 <= j <= m,
                    m == rule.declarations@.len(),
                    declared == rule@.declarations,
                    properties.wf(),
                    seen == before + declared.take(j as int),
                    properties.content() == fold_declarations(seen),
                decreases m - j,
            {
                let d = &rule.declarations[j];
                let ghost old_properties = properties;
                let value = d.value.clone();
                properties.insert(d.name.clone(), value);
                proof {
                    old_properties.lemma_content_insert(&properties, d.name@, value);
                    lemma_fold_push(seen, d@);
                    assert(before + declared.take(j + 1) =~= seen.push(d@));
                    seen = seen.push(d@);
                }
                j += 1;
            }
            proof {
                assert(declared.take(m as int) =~= declared);
            }
        }
        i += 1;
    }
    proof {
        assert(rules.take(n as int) =~= rules);
    }
    properties
}

/// Resolves the styles of a document tree under a stylesheet and returns the styled
/// tree: see [`styled`]. The result is `None` where the root itself is not displayed;
/// below a node that is not displayed nothing is looked at.
pub fn to_styled_node<'a>(node: &'a Box<Node>, stylesheet: &Stylesheet) -> (r: Option<
    StyledNode<'a>,
>)
    ensures
        match r {
            Some(s) => styled(node@, stylesheet@) == Some(s@) && visible(s@),
            None => styled(node@, stylesheet@) is None,
        },
    decreases node,
{
    let properties = resolve(node, stylesheet);
    proof {
        node.lemma_model();
        lemma_styled_is_visible(node@, stylesheet@);
    }
    match display_from(&node.node_type, &properties) {
        Display::Hidden => {
            return None;
        },
        _ => {},
    }
    let mut children: Vec<StyledNode<'a>> = Vec::new();
    let n = node.children.len();
    let mut i: usize = 0;
    proof {
        assert(styled_views(children@) + styled_from(node@.children, 0, stylesheet@)
            =~= styled_from(node@.children, 0, stylesheet@));
    }
    while i < n
        invariant
            0 <= i <= n,
            n == node.children@.len(),
            node@.children == views(node.children@),
            styled_views(children@) + styled_from(node@.children, i as int, stylesheet@)
                == styled_from(node@.children, 0, stylesheet@),
        decreases n - i,
    {
        let ghost before = styled_views(children@);
        let ghost rest = styled_from(node@.children, i + 1, stylesheet@);
        match to_styled_node(&node.children[i], stylesheet) {
            Some(child) => {
                let ghost cv = child@;
                children.push(child);
                proof {
                    assert(styled_views(children@) =~= before.push(cv));
                    assert(before + (seq![cv] + rest) =~= before.push(cv) + rest);
                }
            },
            None => {},
        }
        i += 1;
    }
    let s = StyledNode { node_type: &node.node_type, properties, children };
    proof {
        s.lemma_model();
        assert(styled_views(children@) + Seq::<StyledView>::empty() =~= styled_views(children@));
    }
    Some(s)
}

/// The last declaration of a property is the one that counts: where no later
/// declaration names the same property, the folded properties hold its value.
pub proof fn lemma_last_declaration_wins(declarations: Seq<DeclarationView>, i: int)
    requires
        0 <= i < declarations.len(),
        forall|j: int| i < j < declarations.len() ==> declarations[j].name != declarations[i].name,
    ensures
        fold_declarations(declarations).contains_key(declarations[i].name),
        fold_declarations(declarations)[declarations[i].name] == declarations[i].value,
    decreases declarations.len(),
{
    if i < declarations.len() - 1 {
        lemma_last_declaration_wins(declarations.drop_last(), i);
    }
}

/// The folded properties are those that some declaration names, and no others.
pub proof fn lemma_declared_properties(declarations: Seq<DeclarationView>, name: Seq<char>)
    ensures
        fold_declarations(declarations).contains_key(name) <==> exists|i: int|
            0 <= i < declarations.len() && (#[trigger] declarations[i]).name == name,
    decreases declarations.len(),
{
    if declarations.len() > 0 {
        let front = declarations.drop_last();
        lemma_declared_properties(front, name);
        if fold_declarations(declarations).contains_key(name) {
            if declarations.last().name == name {
                assert(declarations[declarations.len() - 1].name == name);
            } else {
                let i = choose|i: int| 0 <= i < front.len() && (#[trigger] front[i]).name == name;
                assert(declarations[i].name == name);
            }
        }
        if exists|i: int| 0 <= i < declarations.len() && (#[trigger] declarations[i]).name == name {
            let i = choose|i: int|
                0 <= i < declarations.len() && (#[trigger] declarations[i]).name == name;
            if i < front.len() {
                assert(front[i].name == name);
            }
        }
    }
}

/// The declarations of a rule that applies to the node stand, together and in their
/// order, among the declarations that count for the node; those of the rules behind it
/// follow them.
pub proof fn lemma_matching_declarations_append(rules: Seq<RuleView>, rule: RuleView, node: NodeView)
    ensures
        matching_declarations(rules.push(rule), node) == if rule_matches(rule, node) {
            matching_declarations(rules, node) + rule.declarations
        } else {
            matching_declarations(rules, node)
        },
{
    assert(rules.push(rule).drop_last() =~= rules);
}

/// Of two rules that both apply to a node and both declare a property, the later rule
/// decides, whatever their selectors are: with `p {display: inline}` before
/// `p {display: block}` a `p` is a block.
pub proof fn lemma_later_rule_wins(
    rules: Seq<RuleView>,
    node: NodeView,
    k: int,
    i: int,
)
    requires
        0 <= k < rules.len(),
        rule_matches(rules[k], node),
        0 <= i < rules[k].declarations.len(),
        forall|j: int|
            i < j < rules[k].declarations.len() ==> rules[k].declarations[j].name
                != rules[k].declarations[i].name,
        forall|m: int, j: int|
            k < m < rules.len() && rule_matches(rules[m], node) && 0 <= j
                < rules[m].declarations.len() ==> (#[trigger] rules[m].declarations[j]).name
                != rules[k].declarations[i].name,
    ensures
        cascade(StylesheetView { rules }, node).contains_key(rules[k].declarations[i].name),
        cascade(StylesheetView { rules }, node)[rules[k].declarations[i].name]
            == rules[k].declarations[i].value,
    decreases rules.len(),
{
    let d = rules[k].declarations[i];
    let front = rules.drop_last();
    let last = rules.last();
    let before = matching_declarations(front, node);
    if k == rules.len() - 1 {
        let all = before + last.declarations;
        assert(all[before.len() + i] == d);
        lemma_last_declaration_wins(all, before.len() + i);
    } else {
        assert(front[k] == rules[k]);
        assert forall|m: int, j: int|
            k < m < front.len() && rule_matches(front[m], node) && 0 <= j
                < front[m].declarations.len() implies (#[trigger] front[m].declarations[j]).name
            != d.name by {
            assert(front[m] == rules[m]);
        }
        lemma_later_rule_wins(front, node, k, i);
        if rule_matches(last, node) {
            lemma_fold_append_keeps(before, last.declarations, d.name);
        }
    }
}

/// Declarations that do not name a property leave its value as it was.
pub proof fn lemma_fold_append_keeps(
    declarations: Seq<DeclarationView>,
    more: Seq<DeclarationView>,
    name: Seq<char>,
)
    requires
        forall|j: int| 0 <= j < more.len() ==> (#[trigger] more[j]).name != name,
    ensures
        fold_declarations(declarations + more).contains_key(name) == fold_declarations(
            declarations,
        ).contains_key(name),
        fold_declarations(declarations + more)[name] == fold_declarations(declarations)[name],
    decreases more.len(),
{
    if more.len() == 0 {
        assert(declarations + more =~= declarations);
    } else {
        let all = declarations + more;
        assert(all.drop_last() =~= declarations + more.drop_last());
        assert(all.last() == more[more.len() - 1]);
        assert forall|j: int| 0 <= j < more.drop_last().len() implies (#[trigger] more.drop_last()[j]).name
            != name by {
            assert(more.drop_last()[j] == more[j]);
        }
        lemma_fold_append_keeps(declarations, more.drop_last(), name);
    }
}

/// Every node of a styled tree that the resolver makes is displayed: a node that is
/// not displayed is not in it, and neither is anything below such a node.
pub proof fn lemma_styled_is_visible(node: NodeView, sheet: StylesheetView)
    ensures
        styled(node, sheet) matches Some(s) ==> visible(s),
    decreases node, 1nat,
{
    if let Some(s) = styled(node, sheet) {
        lemma_styled_from_is_visible(node.children, 0, sheet);
        assert(s.children == styled_from(node.children, 0, sheet));
        assert forall|i: int| 0 <= i < s.children.len() implies visible(#[trigger] s.children[i]) by {
            assert(visible(styled_from(node.children, 0, sheet)[i]));
        }
    }
}

/// The same for the styled trees of a list of nodes.
pub proof fn lemma_styled_from_is_visible(nodes: Seq<NodeView>, k: int, sheet: StylesheetView)
    ensures
        forall|i: int|
            0 <= i < styled_from(nodes, k, sheet).len() ==> visible(
                #[trigger] styled_from(nodes, k, sheet)[i],
            ),
    decreases nodes, nodes.len() - k,
{
    if 0 <= k < nodes.len() {
        lemma_styled_is_visible(nodes[k], sheet);
        lemma_styled_from_is_visible(nodes, k + 1, sheet);
        let all = styled_from(nodes, k, sheet);
        let rest = styled_from(nodes, k + 1, sheet);
        assert forall|i: int| 0 <= i < all.len() implies visible(#[trigger] all[i]) by {
            match styled(nodes[k], sheet) {
                Some(s) => {
                    if i > 0 {
                        assert(all[i] == rest[i - 1]);
                    }
                },
                None => {},
            }
        }
    }
}

/// The styled tree has a root exactly when the root of the document is displayed, and
/// the styled root then stands for the document root with its cascaded properties.
pub proof fn lemma_styled_root(node: NodeView, sheet: StylesheetView)
    ensures
        styled(node, sheet) is None <==> display_of(node.node_type, cascade(sheet, node))
            == Display::Hidden,
        styled(node, sheet) matches Some(s) ==> s.node_type == node.node_type && s.properties
            == cascade(sheet, node),
{
}

/// A child that is not displayed leaves nothing in the styled tree; one that is
/// displayed leaves its styled tree, and the order of the children stays.
pub proof fn lemma_styled_children(nodes: Seq<NodeView>, k: int, sheet: StylesheetView)
    requires
        0 <= k < nodes.len(),
    ensures
        styled_from(nodes, k, sheet) == match styled(nodes[k], sheet) {
            Some(s) => seq![s] + styled_from(nodes, k + 1, sheet),
            None => styled_from(nodes, k + 1, sheet),
        },
{
}

} // verus!
