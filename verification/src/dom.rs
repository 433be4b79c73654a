//! The document tree: elements and text, and the operations that read and change it.

use crate::html::{document, parse_raw};
use crate::parse::ParseError;
use crate::string_map::StringMap;
use vstd::prelude::*;
use vstd::std_specs::cmp::PartialEqSpecImpl;

verus! {

/// The attributes of an element: a map from names to values.
pub type AttrMap = StringMap<String>;

/// A node of the document tree, with the nodes below it.
#[derive(Debug)]
pub struct Node {
    pub node_type: NodeType,
    pub children: Vec<Box<Node>>,
}

/// What a node is.
#[derive(Debug)]
pub enum NodeType {
    Element(Element),
    Text(Text),
}

/// An element: a tag name and attributes.
#[derive(Debug)]
pub struct Element {
    pub tag_name: String,
    pub attributes: AttrMap,
}

/// A run of text.
#[derive(Debug)]
pub struct Text {
    pub data: String,
}

/// An element, as plain data.
pub struct ElementView {
    pub tag_name: Seq<char>,
    pub attributes: Map<Seq<char>, Seq<char>>,
}

/// A run of text, as plain data.
pub struct TextView {
    pub data: Seq<char>,
}

/// What a node is, as plain data.
pub enum NodeTypeView {
    Element(ElementView),
    Text(TextView),
}

/// A document tree, as plain data.
pub struct NodeView {
    pub node_type: NodeTypeView,
    pub children: Seq<NodeView>,
}

impl View for Element {
    type V = ElementView;

    open spec fn view(&self) -> ElementView {
        ElementView { tag_name: self.tag_name@, attributes: self.attributes.content() }
    }
}

impl View for Text {
    type V = TextView;

    open spec fn view(&self) -> TextView {
        TextView { data: self.data@ }
    }
}

impl View for NodeType {
    type V = NodeTypeView;

    open spec fn view(&self) -> NodeTypeView {
        match self {
            NodeType::Element(e) => NodeTypeView::Element(e@),
            NodeType::Text(t) => NodeTypeView::Text(t@),
        }
    }
}

impl View for Node {
    type V = NodeView;

    open spec fn view(&self) -> NodeView {
        self.model()
    }
}

/// The trees of a list of nodes, as plain data.
pub open spec fn views(nodes: Seq<Box<Node>>) -> Seq<NodeView> {
    Seq::new(nodes.len(), |i: int| nodes[i].model())
}

impl Node {
    /// The tree below and including this node, as plain data.
    pub open spec fn model(&self) -> NodeView
        decreases self,
    {
        NodeView {
            node_type: self.node_type@,
            children: Seq::new(
                self.children@.len(),
                |i: int|
                    if 0 <= i < self.children@.len() {
                        self.children@[i].model()
                    } else {
                        arbitrary()
                    },
            ),
        }
    }

    /// The children of a node's tree are the trees of its children.
    pub proof fn lemma_model(&self)
        ensures
            self@.node_type == self.node_type@,
            self@.children == views(self.children@),
    {
        assert(self@.children =~= views(self.children@));
    }
}

/// Whether the tree is well formed: no text node in it has children.
pub open spec fn well_formed(n: NodeView) -> bool
    decreases n,
{
    &&& n.node_type is Text ==> n.children.len() == 0
    &&& forall|i: int| 0 <= i < n.children.len() ==> well_formed(#[trigger] n.children[i])
}

impl PartialEq for Text {
    fn eq(&self, other: &Self) -> (r: bool) {
        self.data == other.data
    }
}

impl PartialEqSpecImpl for Text {
    open spec fn obeys_eq_spec() -> bool {
        true
    }

    open spec fn eq_spec(&self, other: &Self) -> bool {
        self@ == other@
    }
}

impl PartialEq for Element {
    /// Two elements are equal when they have the same tag name and the same
    /// attributes, in whatever order these were set.
    fn eq(&self, other: &Self) -> (r: bool) {
        self.tag_name == other.tag_name && self.attributes == other.attributes
    }
}

impl PartialEqSpecImpl for Element {
    open spec fn obeys_eq_spec() -> bool {
        true
    }

    open spec fn eq_spec(&self, other: &Self) -> bool {
        self@ == other@
    }
}

impl PartialEq for NodeType {
    fn eq(&self, other: &Self) -> (r: bool) {
        match (self, other) {
            (NodeType::Element(a), NodeType::Element(b)) => *a == *b,
            (NodeType::Text(a), NodeType::Text(b)) => *a == *b,
            _ => false,
        }
    }
}

impl PartialEqSpecImpl for NodeType {
    open spec fn obeys_eq_spec() -> bool {
        true
    }

    open spec fn eq_spec(&self, other: &Self) -> bool {
        self@ == other@
    }
}

impl Node {
    /// Whether the two trees are the same: node for node the same kind, the same
    /// content, and the same children in the same order.
    pub fn same_as(&self, other: &Node) -> (r: bool)
        ensures
            r == (self@ == other@),
        decreases self,
    {
        proof {
            self.lemma_model();
            other.lemma_model();
        }
        if self.node_type != other.node_type {
            return false;
        }
        let n = self.children.len();
        if n != other.children.len() {
            assert(self@.children.len() != other@.children.len());
            return false;
        }
        let mut i: usize = 0;
        while i < n
            invariant
                0 <= i <= n,
                n == self.children@.len(),
                n == other.children@.len(),
                self@.children == views(self.children@),
                other@.children == views(other.children@),
                forall|j: int| 0 <= j < i ==> self@.children[j] == other@.children[j],
            decreases n - i,
        {
            if !self.children[i].same_as(&other.children[i]) {
                assert(self@.children[i as int] != other@.children[i as int]);
                return false;
            }
            i += 1;
        }
        assert(self@.children =~= other@.children);
        true
    }
}

impl PartialEq for Node {
    /// Two trees are equal when they are the same node for node: see
    /// [`Node::same_as`].
    fn eq(&self, other: &Self) -> (r: bool) {
        self.same_as(other)
    }
}

impl PartialEqSpecImpl for Node {
    open spec fn obeys_eq_spec() -> bool {
        true
    }

    open spec fn eq_spec(&self, other: &Self) -> bool {
        self@ == other@
    }
}

/// The text below a tree: the text of its children, one after the other.
pub open spec fn text_below(n: NodeView) -> Seq<char>
    decreases n, 0nat,
{
    text_from(n.children, 0)
}

/// The text of the trees `ns[k..]`: the data of one that is text, the text below one that
/// is an element.
pub open spec fn text_from(ns: Seq<NodeView>, k: int) -> Seq<char>
    decreases ns, ns.len() - k,
{
    if 0 <= k < ns.len() {
        let head = match ns[k].node_type {
            NodeTypeView::Text(t) => t.data,
            NodeTypeView::Element(_) => text_below(ns[k]),
        };
        head + text_from(ns, k + 1)
    } else {
        Seq::empty()
    }
}

impl Element {
    /// A new element node with the given name, attributes and children.
    pub fn new(name: String, attributes: AttrMap, children: Vec<Box<Node>>) -> (node: Box<Node>)
        ensures
            node.node_type == NodeType::Element(Element { tag_name: name, attributes }),
            node.children == children,
            node@ == (NodeView {
                node_type: NodeTypeView::Element(
                    ElementView { tag_name: name@, attributes: attributes.content() },
                ),
                children: views(children@),
            }),
            (forall|i: int| 0 <= i < children@.len() ==> well_formed(#[trigger] children@[i]@))
                ==> well_formed(node@),
    {
        let node = Box::new(
            Node { node_type: NodeType::Element(Element { tag_name: name, attributes }), children },
        );
        proof {
            node.lemma_model();
            if forall|i: int| 0 <= i < children@.len() ==> well_formed(#[trigger] children@[i]@) {
                assert forall|i: int| 0 <= i < node@.children.len() implies well_formed(
                    #[trigger] node@.children[i],
                ) by {
                    assert(well_formed(children@[i]@));
                }
            }
        }
        node
    }

    /// The value of the attribute `id`, if the element has one.
    pub fn id(&self) -> (r: Option<&String>)
        ensures
            match r {
                Some(v) => self@.attributes.contains_key("id"@) && v@ == self@.attributes["id"@],
                None => !self@.attributes.contains_key("id"@),
            },
    {
        let r = self.attributes.get("id");
        proof {
            self.attributes.lemma_content();
        }
        r
    }

    /// The attributes as a list of pairs of name and value, in the order in which the
    /// names were first set.
    pub fn attributes(&self) -> (r: Vec<(String, String)>)
        ensures
            r@.len() == self.attributes.keys().len(),
            forall|i: int|
                #![trigger r@[i]]
                0 <= i < r@.len() ==> r@[i].0@ == self.attributes.keys()[i] && r@[i].1@
                    == self.attributes.values()[i]@ && self@.attributes.contains_key(r@[i].0@)
                    && self@.attributes[r@[i].0@] == r@[i].1@,
    {
        let mut r: Vec<(String, String)> = Vec::new();
        let n = self.attributes.len();
        let mut i: usize = 0;
        while i < n
            invariant
                0 <= i <= n,
                n == self.attributes.keys().len(),
                self.attributes.wf(),
                r@.len() == i,
                forall|j: int|
                    #![trigger r@[j]]
                    0 <= j < i ==> r@[j].0@ == self.attributes.keys()[j] && r@[j].1@
                        == self.attributes.values()[j]@ && self@.attributes.contains_key(r@[j].0@)
                        && self@.attributes[r@[j].0@] == r@[j].1@,
            decreases n - i,
        {
            proof {
                self.attributes.lemma_content_at(i as int);
            }
            let k = self.attributes.key(i).clone();
            let v = self.attributes.value(i).clone();
            r.push((k, v));
            i += 1;
        }
        r
    }
}

impl Text {
    /// A new text node with the given data.
    pub fn new(text: String) -> (node: Box<Node>)
        ensures
            node.node_type == NodeType::Text(Text { data: text }),
            node.children@.len() == 0,
            node@ == (NodeView {
                node_type: NodeTypeView::Text(TextView { data: text@ }),
                children: Seq::<NodeView>::empty(),
            }),
            well_formed(node@),
    {
        let node = Box::new(Node { node_type: NodeType::Text(Text { data: text }), children: Vec::new() });
        proof {
            node.lemma_model();
            assert(views(node.children@) =~= Seq::<NodeView>::empty());
        }
        node
    }
}

impl Node {
    /// The text below this node: the data of every text node under it, in document
    /// order, with nothing in between.
    pub fn inner_text(&self) -> (r: String)
        ensures
            r@ == text_below(self@),
        decreases self,
    {
        let mut r = String::new();
        let n = self.children.len();
        let mut i: usize = 0;
        proof {
            self.lemma_model();
        }
        while i < n
            invariant
                0 <= i <= n,
                n == self.children@.len(),
                self@.children == views(self.children@),
                r@ + text_from(self@.children, i as int) == text_from(self@.children, 0),
            decreases n - i,
        {
            let child = &self.children[i];
            let ghost before = r@;
            match &child.node_type {
                NodeType::Text(t) => {
                    r.append(t.data.as_str());
                },
                NodeType::Element(_) => {
                    let inner = child.inner_text();
                    r.append(inner.as_str());
                },
            }
            proof {
                child.lemma_model();
                let ns = self@.children;
                let head = match ns[i as int].node_type {
                    NodeTypeView::Text(t) => t.data,
                    NodeTypeView::Element(_) => text_below(ns[i as int]),
                };
                assert(r@ == before + head);
                assert(text_from(ns, i as int) == head + text_from(ns, i + 1));
                assert((before + head) + text_from(ns, i + 1) =~= before + (head + text_from(
                    ns,
                    i + 1,
                )));
            }
            i += 1;
        }
        assert(r@ + Seq::<char>::empty() =~= r@);
        r
    }

    /// Replaces the children by a single text node that holds `text`.
    pub fn set_inner_text(&mut self, text: &str)
        ensures
            final(self).node_type == old(self).node_type,
            final(self)@.children == seq![
                NodeView {
                    node_type: NodeTypeView::Text(TextView { data: text@ }),
                    children: Seq::<NodeView>::empty(),
                },
            ],
            text_below(final(self)@) == text@,
            old(self).node_type is Element ==> well_formed(final(self)@),
    {
        let child = Text::new(text.to_owned());
        let mut children: Vec<Box<Node>> = Vec::new();
        children.push(child);
        self.children = children;
        proof {
            self.lemma_model();
            let ns = self@.children;
            assert(ns =~= seq![child@]);
            assert(text_from(ns, 1) == Seq::<char>::empty());
            assert(text_from(ns, 0) == text@ + text_from(ns, 1));
            assert(text@ + Seq::<char>::empty() =~= text@);
            assert(well_formed(ns[0]));
        }
    }
}

/// The attributes `keys[k..]` with their values as they stand in an opening tag: each
/// as a blank, the name, `="`, the value and `"`.
pub open spec fn attributes_markup(keys: Seq<Seq<char>>, values: Seq<String>, k: int) -> Seq<char>
    decreases keys.len() - k,
{
    if 0 <= k < keys.len() {
        seq![' '] + keys[k] + seq!['=', '"'] + values[k]@ + seq!['"'] + attributes_markup(
            keys,
            values,
            k + 1,
        )
    } else {
        Seq::empty()
    }
}

/// The markup of the nodes `nodes[k..]`, one after the other.
pub open spec fn markup_from(nodes: Seq<Box<Node>>, k: int) -> Seq<char>
    decreases nodes, nodes.len() - k,
{
    if 0 <= k < nodes.len() {
        nodes[k].markup() + markup_from(nodes, k + 1)
    } else {
        Seq::empty()
    }
}

impl Node {
    /// The markup of the node. Text is its data as it stands. An element is its opening
    /// tag with the attributes in the order in which they were first set, the markup of
    /// its children, and its closing tag.
    pub open spec fn markup(&self) -> Seq<char>
        decreases self, 0nat,
    {
        match self.node_type {
            NodeType::Text(t) => t.data@,
            NodeType::Element(e) => seq!['<'] + e.tag_name@ + attributes_markup(
                e.attributes.keys(),
                e.attributes.values(),
                0,
            ) + seq!['>'] + markup_from(self.children@, 0) + seq!['<', '/'] + e.tag_name@
                + seq!['>'],
        }
    }

    fn write_markup(&self, out: &mut String)
        ensures
            final(out)@ == old(out)@ + self.markup(),
        decreases self, 1nat,
    {
        match &self.node_type {
            NodeType::Text(t) => {
                out.append(t.data.as_str());
            },
            NodeType::Element(e) => {
                let ghost start = out@;
                out.push('<');
                out.append(e.tag_name.as_str());
                let n = e.attributes.len();
                let ghost keys = e.attributes.keys();
                let ghost values = e.attributes.values();
                let ghost head = start + seq!['<'] + e.tag_name@;
                let mut i: usize = 0;
                proof {
                    assert(head + attributes_markup(keys, values, 0) == out@ + attributes_markup(
                        keys,
                        values,
                        0,
                    ));
                }
                while i < n
                    invariant
                        0 <= i <= n,
                        n == keys.len(),
                        keys == e.attributes.keys(),
                        values == e.attributes.values(),
                        e.attributes.wf(),
                        out@ + attributes_markup(keys, values, i as int) == head
                            + attributes_markup(keys, values, 0),
                    decreases n - i,
                {
                    let ghost before = out@;
                    out.push(' ');
                    out.append(e.attributes.key(i).as_str());
                    out.push('=');
                    out.push('"');
                    out.append(e.attributes.value(i).as_str());
                    out.push('"');
                    proof {
                        let one = seq![' '] + keys[i as int] + seq!['=', '"'] + values[i as int]@
                            + seq!['"'];
                        assert(out@ =~= before + one);
                        assert(attributes_markup(keys, values, i as int) == one
                            + attributes_markup(keys, values, i + 1));
                        assert((before + one) + attributes_markup(keys, values, i + 1) =~= before
                            + (one + attributes_markup(keys, values, i + 1)));
                    }
                    i += 1;
                }
                out.push('>');
                let ghost opened = head + attributes_markup(keys, values, 0) + seq!['>'];
                proof {
                    assert(out@ =~= opened);
                }
                let m = self.children.len();
                let mut j: usize = 0;
                while j < m
                    invariant
                        0 <= j <= m,
                        m == self.children@.len(),
                        out@ + markup_from(self.children@, j as int) == opened + markup_from(
                            self.children@,
                            0,
                        ),
                    decreases m - j,
                {
                    let ghost before = out@;
                    self.children[j].write_markup(out);
                    proof {
                        let one = self.children@[j as int].markup();
                        let rest = markup_from(self.children@, j + 1);
                        assert((before + one) + rest =~= before + (one + rest));
                    }
                    j += 1;
                }
                out.push('<');
                out.push('/');
                out.append(e.tag_name.as_str());
                out.push('>');
                proof {
                    let body = markup_from(self.children@, 0);
                    assert(out@ =~= start + (seq!['<'] + e.tag_name@ + attributes_markup(
                        keys,
                        values,
                        0,
                    ) + seq!['>'] + body + seq!['<', '/'] + e.tag_name@ + seq!['>']));
                }
            },
        }
    }

    /// The markup of the children, one after the other: see [`Node::markup`].
    pub fn inner_html(&self) -> (r: String)
        ensures
            r@ == markup_from(self.children@, 0),
    {
        let mut out = String::new();
        let m = self.children.len();
        let mut j: usize = 0;
        while j < m
            invariant
                0 <= j <= m,
                m == self.children@.len(),
                out@ + markup_from(self.children@, j as int) == markup_from(self.children@, 0),
            decreases m - j,
        {
            let ghost before = out@;
            self.children[j].write_markup(&mut out);
            proof {
                let one = self.children@[j as int].markup();
                let rest = markup_from(self.children@, j + 1);
                assert((before + one) + rest =~= before + (one + rest));
            }
            j += 1;
        }
        assert(out@ + Seq::<char>::empty() =~= out@);
        out
    }

    /// Parses `html` and puts its top-level nodes in the place of the children. Markup
    /// that cannot be parsed leaves the node as it is.
    pub fn set_inner_html(&mut self, html: &str) -> (r: Result<(), ParseError>)
        ensures
            match r {
                Ok(_) => document(html@) == Ok::<Seq<NodeView>, int>(final(self)@.children)
                    && final(self).node_type == old(self).node_type && (old(
                    self,
                ).node_type is Element ==> well_formed(final(self)@)),
                Err(e) => {
                    &&& *final(self) == *old(self)
                    &&& document(html@) matches Err(end)
                    &&& e matches ParseError::Trailing { offset }
                    &&& offset == end
                },
            },
    {
        match parse_raw(html) {
            Ok(nodes) => {
                self.children = nodes;
                proof {
                    self.lemma_model();
                }
                Ok(())
            },
            Err(e) => Err(e),
        }
    }
}

/// Whether the tree's root is an element whose attribute `id` is `id`.
pub open spec fn has_id(n: NodeView, id: Seq<char>) -> bool {
    n.node_type matches NodeTypeView::Element(e) && e.attributes.contains_key("id"@)
        && e.attributes["id"@] == id
}

/// The first element of the tree, in document order, whose attribute `id` is `id`.
pub open spec fn find_by_id(n: NodeView, id: Seq<char>) -> Option<NodeView>
    decreases n, 0nat,
{
    if has_id(n, id) {
        Some(n)
    } else {
        find_in(n.children, 0, id)
    }
}

/// The first element of the trees `ns[k..]`, in document order, whose attribute `id`
/// is `id`.
pub open spec fn find_in(ns: Seq<NodeView>, k: int, id: Seq<char>) -> Option<NodeView>
    decreases ns, ns.len() - k,
{
    if 0 <= k < ns.len() {
        match find_by_id(ns[k], id) {
            Some(found) => Some(found),
            None => find_in(ns, k + 1, id),
        }
    } else {
        None
    }
}

/// The tree with `new` in the place of the first element whose attribute `id` is `id`;
/// the tree itself where there is none.
pub open spec fn replace_by_id(n: NodeView, id: Seq<char>, new: NodeView) -> NodeView
    decreases n, 0nat,
{
    if has_id(n, id) {
        new
    } else {
        NodeView { node_type: n.node_type, children: replace_in(n.children, 0, id, new) }
    }
}

/// The trees with `new` in the place of the first element of `ns[k..]` whose attribute
/// `id` is `id`.
pub open spec fn replace_in(ns: Seq<NodeView>, k: int, id: Seq<char>, new: NodeView) -> Seq<
    NodeView,
>
    decreases ns, ns.len() - k,
{
    if 0 <= k < ns.len() {
        if find_by_id(ns[k], id) is Some {
            ns.update(k, replace_by_id(ns[k], id, new))
        } else {
            replace_in(ns, k + 1, id, new)
        }
    } else {
        ns
    }
}

/// Where the trees before `k` hold no such element, the search may start at `k`.
pub proof fn lemma_find_skips(ns: Seq<NodeView>, k: int, id: Seq<char>, new: NodeView)
    requires
        0 <= k <= ns.len(),
        forall|j: int| 0 <= j < k ==> find_by_id(#[trigger] ns[j], id) is None,
    ensures
        find_in(ns, 0, id) == find_in(ns, k, id),
        replace_in(ns, 0, id, new) == replace_in(ns, k, id, new),
    decreases k,
{
    if k > 0 {
        lemma_find_skips(ns, k - 1, id, new);
    }
}

/// What the search finds is an element whose attribute `id` is `id`.
pub proof fn lemma_found_has_id(n: NodeView, id: Seq<char>)
    ensures
        find_by_id(n, id) matches Some(found) ==> has_id(found, id),
    decreases n, 1nat,
{
    if !has_id(n, id) {
        lemma_found_in_has_id(n.children, 0, id);
    }
}

/// The same for the search in a list of trees.
pub proof fn lemma_found_in_has_id(ns: Seq<NodeView>, k: int, id: Seq<char>)
    ensures
        find_in(ns, k, id) matches Some(found) ==> has_id(found, id),
    decreases ns, ns.len() - k,
{
    if 0 <= k < ns.len() {
        lemma_found_has_id(ns[k], id);
        lemma_found_in_has_id(ns, k + 1, id);
    }
}

/// A well-formed tree stays well formed when a well-formed tree is put in the place of
/// one of its elements.
pub proof fn lemma_replace_keeps_well_formed(n: NodeView, id: Seq<char>, new: NodeView)
    requires
        well_formed(n),
        well_formed(new),
    ensures
        well_formed(replace_by_id(n, id, new)),
    decreases n, 1nat,
{
    if !has_id(n, id) {
        lemma_replace_in_keeps_well_formed(n.children, 0, id, new);
        let after = replace_by_id(n, id, new);
        assert(after.children.len() == n.children.len());
    }
}

/// The same for the replacement in a list of trees.
pub proof fn lemma_replace_in_keeps_well_formed(
    ns: Seq<NodeView>,
    k: int,
    id: Seq<char>,
    new: NodeView,
)
    requires
        forall|i: int| 0 <= i < ns.len() ==> well_formed(#[trigger] ns[i]),
        well_formed(new),
    ensures
        replace_in(ns, k, id, new).len() == ns.len(),
        forall|i: int|
            0 <= i < ns.len() ==> well_formed(#[trigger] replace_in(ns, k, id, new)[i]),
    decreases ns, ns.len() - k,
{
    if 0 <= k < ns.len() {
        if find_by_id(ns[k], id) is Some {
            lemma_replace_keeps_well_formed(ns[k], id, new);
        } else {
            lemma_replace_in_keeps_well_formed(ns, k + 1, id, new);
        }
    }
}

/// A tree in which the first such element lies below the child `i` and which changed in
/// that child only, as the replacement asks, has changed as the replacement asks.
proof fn lemma_replaced_below(before: Box<Node>, after: Box<Node>, i: int, id: Seq<char>, new: NodeView)
    requires
        0 <= i < before.children@.len(),
        !has_id(before@, id),
        forall|j: int| 0 <= j < i ==> find_by_id(#[trigger] before@.children[j], id) is None,
        find_by_id(before@.children[i], id) is Some,
        after.node_type == before.node_type,
        after.children@.len() == before.children@.len(),
        forall|j: int|
            0 <= j < before.children@.len() && j != i ==> after.children@[j] == before.children@[j],
        after.children@[i]@ == replace_by_id(before.children@[i]@, id, new),
    ensures
        after@ == replace_by_id(before@, id, new),
{
    lemma_find_skips(before@.children, i, id, new);
    assert(after@.children =~= before@.children.update(i, after.children@[i]@));
}

impl Node {
    fn is_element_with_id(&self, id: &str) -> (b: bool)
        ensures
            b == has_id(self@, id@),
    {
        match &self.node_type {
            NodeType::Element(e) => {
                match e.id() {
                    Some(v) => *v == id.to_owned(),
                    None => false,
                }
            },
            NodeType::Text(_) => false,
        }
    }

    fn holds_id(&self, id: &str) -> (b: bool)
        ensures
            b == (find_by_id(self@, id@) is Some),
        decreases self,
    {
        if self.is_element_with_id(id) {
            return true;
        }
        let n = self.children.len();
        let mut i: usize = 0;
        while i < n
            invariant
                0 <= i <= n,
                n == self.children@.len(),
                !has_id(self@, id@),
                forall|j: int| 0 <= j < i ==> find_by_id(#[trigger] self@.children[j], id@) is None,
            decreases n - i,
        {
            if self.children[i].holds_id(id) {
                proof {
                    lemma_find_skips(self@.children, i as int, id@, arbitrary());
                }
                return true;
            }
            i += 1;
        }
        proof {
            lemma_find_skips(self@.children, n as int, id@, arbitrary());
        }
        false
    }

    /// The first element in document order, the node itself included, whose attribute
    /// `id` is `id`, for reading and writing; `None` where there is no such element.
    /// What is written through the result is written into this tree, in the place of
    /// that element.
    pub fn get_element_by_id<'a>(self: &'a mut Box<Self>, id: &str) -> (r: Option<
        &'a mut Box<Self>,
    >)
        ensures
            match r {
                Some(found) => find_by_id(old(self)@, id@) == Some(found@) && has_id(found@, id@)
                    && final(self)@ == replace_by_id(old(self)@, id@, final(found)@),
                None => find_by_id(old(self)@, id@) is None && *final(self) == *old(self),
            },
        decreases *old(self),
    {
        proof {
            lemma_found_has_id(self@, id@);
        }
        if self.is_element_with_id(id) {
            return Some(self);
        }
        let n = self.children.len();
        let mut i: usize = 0;
        while i < n
            invariant
                0 <= i <= n,
                n == self.children@.len(),
                *self == *old(self),
                !has_id(self@, id@),
                forall|j: int| 0 <= j < i ==> find_by_id(#[trigger] self@.children[j], id@) is None,
            decreases n - i,
        {
            if self.children[i].holds_id(id) {
                let ghost before = *self;
                proof {
                    lemma_find_skips(before@.children, i as int, id@, arbitrary());
                    assert forall|after: Box<Node>, new: NodeView|
                        after.node_type == before.node_type && after.children@.len()
                            == before.children@.len() && (forall|j: int|
                            0 <= j < before.children@.len() && j != i ==> after.children@[j]
                                == before.children@[j]) && after.children@[i as int]@
                            == replace_by_id(
                            before.children@[i as int]@,
                            id@,
                            new,
                        ) implies #[trigger] after@ == #[trigger] replace_by_id(
                        before@,
                        id@,
                        new,
                    ) by {
                        lemma_replaced_below(before, after, i as int, id@, new);
                    }
                }
                return self.children[i].get_element_by_id(id);
            }
            i += 1;
        }
        proof {
            lemma_find_skips(self@.children, n as int, id@, arbitrary());
        }
        None
    }
}

/// The views of a list of strings.
pub open spec fn string_views(v: Seq<String>) -> Seq<Seq<char>> {
    Seq::new(v.len(), |i: int| v[i]@)
}

/// The inner text of every element named `tag` in the tree, in document order; below
/// such an element the search does not go on.
pub open spec fn tag_inners(n: NodeView, tag: Seq<char>) -> Seq<Seq<char>>
    decreases n, 0nat,
{
    if n.node_type matches NodeTypeView::Element(e) && e.tag_name == tag {
        seq![text_below(n)]
    } else {
        tag_inners_from(n.children, 0, tag)
    }
}

/// The inner text of every element named `tag` in the trees `ns[k..]`.
pub open spec fn tag_inners_from(ns: Seq<NodeView>, k: int, tag: Seq<char>) -> Seq<Seq<char>>
    decreases ns, ns.len() - k,
{
    if 0 <= k < ns.len() {
        tag_inners(ns[k], tag) + tag_inners_from(ns, k + 1, tag)
    } else {
        Seq::empty()
    }
}

/// Collects the inner text of every element named `tag_name` in the tree, in document
/// order. An element of that name is taken as a whole: elements of the same name below
/// it are not listed again.
pub fn collect_tag_inners(node: &Box<Node>, tag_name: &str) -> (r: Vec<String>)
    ensures
        string_views(r@) == tag_inners(node@, tag_name@),
    decreases node,
{
    proof {
        node.lemma_model();
    }
    if let NodeType::Element(e) = &node.node_type {
        if e.tag_name == tag_name.to_owned() {
            let mut r: Vec<String> = Vec::new();
            r.push(node.inner_text());
            assert(string_views(r@) =~= seq![text_below(node@)]);
            return r;
        }
    }
    let mut r: Vec<String> = Vec::new();
    let n = node.children.len();
    let mut i: usize = 0;
    assert(string_views(r@) =~= Seq::<Seq<char>>::empty());
    assert(string_views(r@) + tag_inners_from(node@.children, 0, tag_name@) =~= tag_inners_from(
        node@.children,
        0,
        tag_name@,
    ));
    while i < n
        invariant
            0 <= i <= n,
            n == node.children@.len(),
            node@.children == views(node.children@),
            string_views(r@) + tag_inners_from(node@.children, i as int, tag_name@)
                == tag_inners_from(node@.children, 0, tag_name@),
        decreases n - i,
    {
        let ghost before = string_views(r@);
        let mut found = collect_tag_inners(&node.children[i], tag_name);
        let ghost one = string_views(found@);
        r.append(&mut found);
        proof {
            let rest = tag_inners_from(node@.children, i + 1, tag_name@);
            assert(string_views(r@) =~= before + one);
            assert((before + one) + rest =~= before + (one + rest));
        }
        i += 1;
    }
    assert(string_views(r@) + Seq::<Seq<char>>::empty() =~= string_views(r@));
    r
}

} // verus!
