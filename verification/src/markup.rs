//! Markup that was written parses back.
//!
//! [`Node::inner_html`] writes a tree as markup and [`parse_raw`](crate::html::parse_raw)
//! reads markup as a tree. This module states when the second undoes the first, and
//! proves it: for every tree whose names, values and text fit the grammar, the markup
//! parses, and it parses to the tree that was written, with one element for each pair
//! of tags. It also proves that an element whose two tags bear different names is never
//! read.

use crate::dom::{attributes_markup, markup_from, views, Node, NodeType, NodeView};
use crate::html::{
    attribute_at, attributes_at, close_tag_at, document, element_at, element_node, nodes_at,
    open_tag_at, pairs_map, text_at, text_node, Pair,
};
use crate::parse::Parsed;
use crate::string_map::{lemma_map_of_at, map_of};
use crate::text::{
    blank_end, is_letter, is_space, lemma_run_end, lemma_run_end_is, lemma_trim_of_trimmed,
    name_end, run_end, CharClass,
};
use vstd::prelude::*;

verus! {

/// A name that the grammar can read: letters, at least one, none of them white space.
pub open spec fn is_name(name: Seq<char>) -> bool {
    &&& name.len() > 0
    &&& forall|k: int| 0 <= k < name.len() ==> is_letter(#[trigger] name[k]) && !is_space(name[k])
}

/// An attribute value that the grammar can read: not empty, and without `"`.
pub open spec fn is_value(value: Seq<char>) -> bool {
    &&& value.len() > 0
    &&& forall|k: int| 0 <= k < value.len() ==> #[trigger] value[k] != '"'
}

/// Text that the grammar reads as it stands: not empty, without `<`, and without white
/// space at either end.
pub open spec fn is_text(data: Seq<char>) -> bool {
    &&& data.len() > 0
    &&& forall|k: int| 0 <= k < data.len() ==> #[trigger] data[k] != '<'
    &&& !is_space(data[0])
    &&& !is_space(data.last())
}

/// Whether the node at `k` is text.
pub open spec fn text_stands_at(nodes: Seq<Box<Node>>, k: int) -> bool {
    0 <= k < nodes.len() && nodes[k].node_type is Text
}

/// Whether no two text nodes follow one another in the list. (Written one after the
/// other, they would be read as one.)
pub open spec fn texts_apart(nodes: Seq<Box<Node>>) -> bool {
    forall|k: int, m: int|
        m == k + 1 ==> !(#[trigger] text_stands_at(nodes, k) && #[trigger] text_stands_at(nodes, m))
}

impl Node {
    /// Whether the tree fits the grammar, so that its markup can be read back: tag and
    /// attribute names are names, attribute values are values, text is text and has no
    /// children, and no two text nodes follow one another.
    pub open spec fn writable(&self) -> bool
        decreases self,
    {
        &&& match self.node_type {
            NodeType::Text(t) => is_text(t.data@) && self.children@.len() == 0,
            NodeType::Element(e) => {
                &&& is_name(e.tag_name@)
                &&& e.attributes.wf()
                &&& forall|k: int|
                    0 <= k < e.attributes.keys().len() ==> is_name(
                        #[trigger] e.attributes.keys()[k],
                    ) && is_value(e.attributes.values()[k]@)
            },
        }
        &&& texts_apart(self.children@)
        &&& forall|k: int| 0 <= k < self.children@.len() ==> (#[trigger] self.children@[k]).writable()
    }
}

/// Whether every tree of the list fits the grammar, and no two text nodes follow one
/// another.
pub open spec fn all_writable(nodes: Seq<Box<Node>>) -> bool {
    &&& texts_apart(nodes)
    &&& forall|k: int| 0 <= k < nodes.len() ==> (#[trigger] nodes[k]).writable()
}

/// The number of elements in a tree.
pub open spec fn elements_in(n: NodeView) -> nat
    decreases n, 0nat,
{
    (if n.node_type is Element {
        1nat
    } else {
        0nat
    }) + elements_from(n.children, 0)
}

/// The number of elements in the trees `ns[k..]`.
pub open spec fn elements_from(ns: Seq<NodeView>, k: int) -> nat
    decreases ns, ns.len() - k,
{
    if 0 <= k < ns.len() {
        elements_in(ns[k]) + elements_from(ns, k + 1)
    } else {
        0
    }
}

/// Whether the characters `m` stand in `s` from position `i` on.
pub open spec fn occurs(s: Seq<char>, i: int, m: Seq<char>) -> bool {
    &&& 0 <= i
    &&& i + m.len() <= s.len()
    &&& forall|k: int| 0 <= k < m.len() ==> s[i + k] == #[trigger] m[k]
}

/// The attributes `keys[k..]` with their values, as pairs.
pub open spec fn pairs_from(keys: Seq<Seq<char>>, values: Seq<String>, k: int) -> Seq<Pair> {
    Seq::new((keys.len() - k) as nat, |j: int| (keys[k + j], values[k + j]@))
}

proof fn lemma_occurs_split(s: Seq<char>, i: int, a: Seq<char>, b: Seq<char>)
    requires
        occurs(s, i, a + b),
    ensures
        occurs(s, i, a),
        occurs(s, i + a.len(), b),
{
    let m = a + b;
    assert forall|k: int| 0 <= k < a.len() implies s[i + k] == #[trigger] a[k] by {
        assert(m[k] == a[k]);
    }
    assert forall|k: int| 0 <= k < b.len() implies s[i + a.len() + k] == #[trigger] b[k] by {
        assert(m[a.len() + k] == b[k]);
    }
}

proof fn lemma_occurs_run(s: Seq<char>, i: int, m: Seq<char>, class: CharClass)
    requires
        occurs(s, i, m),
        forall|k: int| 0 <= k < m.len() ==> class.has(#[trigger] m[k]),
        i + m.len() < s.len() ==> !class.has(s[i + m.len()]),
    ensures
        run_end(s, i, class) == i + m.len(),
{
    assert forall|k: int| i <= k < i + m.len() implies class.has(#[trigger] s[k]) by {
        assert(s[i + (k - i)] == m[k - i]);
    }
    lemma_run_end_is(s, i, i + m.len(), class);
}

proof fn lemma_occurs_name(s: Seq<char>, i: int, name: Seq<char>)
    requires
        occurs(s, i, name),
        is_name(name),
        i + name.len() < s.len() ==> !is_letter(s[i + name.len()]),
    ensures
        name_end(s, i) == i + name.len(),
{
    lemma_occurs_run(s, i, name, CharClass::Letter);
}

proof fn lemma_no_blank(s: Seq<char>, i: int)
    requires
        0 <= i <= s.len(),
        i < s.len() ==> !is_space(s[i]),
    ensures
        blank_end(s, i) == i,
{
    lemma_run_end_is(s, i, i, CharClass::Space);
}

/// With distinct keys, setting the pairs one after the other gives the map of the keys
/// to the values.
proof fn lemma_pairs_map(keys: Seq<Seq<char>>, values: Seq<String>)
    requires
        keys.no_duplicates(),
        keys.len() == values.len(),
    ensures
        pairs_map(pairs_from(keys, values, 0)) == map_of(keys, values.map_values(|v: String| v@)),
    decreases keys.len(),
{
    let pairs = pairs_from(keys, values, 0);
    let texts = values.map_values(|v: String| v@);
    if keys.len() == 0 {
        assert(map_of(keys, texts) =~= Map::<Seq<char>, Seq<char>>::empty());
    } else {
        let n = keys.len() - 1;
        let front_keys = keys.drop_last();
        let front_values = values.drop_last();
        lemma_pairs_map(front_keys, front_values);
        assert(pairs.drop_last() =~= pairs_from(front_keys, front_values, 0));
        let front_texts = front_values.map_values(|v: String| v@);
        assert(front_texts =~= texts.drop_last());
        let left = map_of(front_keys, front_texts).insert(keys[n], values[n]@);
        let right = map_of(keys, texts);
        assert forall|x: Seq<char>| left.contains_key(x) <==> right.contains_key(x) by {
            if left.contains_key(x) {
                if x == keys[n] {
                    assert(keys[n] == x);
                } else {
                    let j = front_keys.index_of(x);
                    assert(front_keys.contains(x));
                    assert(keys[j] == x);
                }
            }
            if right.contains_key(x) {
                let j = keys.index_of(x);
                assert(keys.contains(x));
                if j < n {
                    assert(front_keys[j] == x);
                }
            }
        }
        assert forall|x: Seq<char>| #[trigger] right.contains_key(x) implies left[x] == right[x] by {
            let j = keys.index_of(x);
            assert(keys.contains(x));
            lemma_map_of_at(keys, texts, j);
            if j < n {
                assert(front_keys[j] == x);
                lemma_map_of_at(front_keys, front_texts, j);
            }
        }
        assert(left =~= right);
    }
}

/// One attribute as it stands in an opening tag behind its blank.
proof fn lemma_attribute_parses(s: Seq<char>, p: int, key: Seq<char>, value: Seq<char>)
    requires
        occurs(s, p, key + seq!['=', '"'] + value + seq!['"']),
        is_name(key),
        is_value(value),
    ensures
        attribute_at(s, p) == (Parsed::Done {
            value: (key, value),
            next: p + key.len() + value.len() + 3,
        }),
{
    let eq = seq!['=', '"'];
    let quote = seq!['"'];
    lemma_occurs_split(s, p, key + eq + value, quote);
    lemma_occurs_split(s, p, key + eq, value);
    lemma_occurs_split(s, p, key, eq);
    let a = p + key.len();
    assert(s[a + 0] == eq[0]);
    assert(s[a + 1] == eq[1]);
    lemma_occurs_name(s, p, key);
    lemma_no_blank(s, a);
    lemma_no_blank(s, a + 1);
    let c = a + 1;
    let d = c + 1 + value.len();
    assert((key + eq).len() == key.len() + 2);
    assert((key + eq + value).len() == key.len() + 2 + value.len());
    assert(s[d + 0] == quote[0]);
    lemma_occurs_run(s, c + 1, value, CharClass::Except('"'));
    assert(s.subrange(p, a) =~= key);
    assert(s.subrange(c + 1, d) =~= value);
}

/// The attributes as they stand in an opening tag, up to its `>`.
proof fn lemma_attributes_parse(
    s: Seq<char>,
    p: int,
    keys: Seq<Seq<char>>,
    values: Seq<String>,
    k: int,
)
    requires
        0 <= k <= keys.len(),
        keys.len() == values.len(),
        forall|j: int| 0 <= j < keys.len() ==> is_name(#[trigger] keys[j]) && is_value(values[j]@),
        occurs(s, p, attributes_markup(keys, values, k)),
        p + attributes_markup(keys, values, k).len() < s.len(),
        s[p + attributes_markup(keys, values, k).len()] == '>',
    ensures
        attributes_at(s, blank_end(s, p)) == (Parsed::Done {
            value: pairs_from(keys, values, k),
            next: p + attributes_markup(keys, values, k).len(),
        }),
    decreases keys.len() - k,
{
    let all = attributes_markup(keys, values, k);
    if k == keys.len() {
        assert(all.len() == 0);
        lemma_no_blank(s, p);
        lemma_run_end_is(s, p, p, CharClass::Letter);
        assert(pairs_from(keys, values, k) =~= Seq::<Pair>::empty());
    } else {
        let key = keys[k];
        let value = values[k]@;
        let rest = attributes_markup(keys, values, k + 1);
        let blank = seq![' '];
        let eq = seq!['=', '"'];
        let quote = seq!['"'];
        assert(is_name(key) && is_value(value));
        assert(all == blank + key + eq + value + quote + rest);
        lemma_occurs_split(s, p, blank + key + eq + value + quote, rest);
        let one = blank + key + eq + value + quote;
        let attr = key + eq + value + quote;
        assert(one =~= blank + attr);
        lemma_occurs_split(s, p, blank, attr);
        assert(s[p + 0] == blank[0]);
        assert(attr[0] == key[0]);
        assert(s[p + 1 + 0] == attr[0]);
        assert(!is_space(key[0]));
        lemma_run_end_is(s, p, p + 1, CharClass::Space);
        lemma_attribute_parses(s, p + 1, key, value);
        let q = p + one.len();
        assert(one.len() == key.len() + value.len() + 4);
        assert(all.len() == one.len() + rest.len());
        lemma_attributes_parse(s, q, keys, values, k + 1);
        lemma_run_end(s, q, CharClass::Space);
        assert(seq![(key, value)] + pairs_from(keys, values, k + 1) =~= pairs_from(
            keys,
            values,
            k,
        ));
    }
}

/// Where nothing that could begin a node stands, the list of nodes ends.
proof fn lemma_nodes_end(s: Seq<char>, p: int)
    requires
        0 <= p <= s.len(),
        p < s.len() ==> s[p] == '<' && p + 1 < s.len() && s[p + 1] == '/',
    ensures
        nodes_at(s, p) == (Seq::<NodeView>::empty(), p),
        blank_end(s, p) == p,
{
    lemma_no_blank(s, p);
    lemma_run_end_is(s, p, p, CharClass::Except('<'));
    if p < s.len() {
        lemma_run_end_is(s, p + 1, p + 1, CharClass::Letter);
        assert(open_tag_at(s, p) is Fail);
    } else {
        assert(open_tag_at(s, p) is Miss);
    }
    assert(!(element_at(s, p) is Done));
    assert(text_at(s, p) is Miss);
}

/// Text that fits the grammar, followed by `<` or by the end of the input, is read as
/// it stands, and no element is read in its place.
proof fn lemma_text_parses(s: Seq<char>, p: int, data: Seq<char>)
    requires
        occurs(s, p, data),
        is_text(data),
        p + data.len() < s.len() ==> s[p + data.len()] == '<',
    ensures
        element_at(s, p) is Miss,
        text_at(s, p) == (Parsed::Done { value: data, next: p + data.len() }),
{
    assert(s[p + 0] == data[0]);
    assert(open_tag_at(s, p) is Miss);
    lemma_occurs_run(s, p, data, CharClass::Except('<'));
    assert(s.subrange(p, p + data.len()) =~= data);
    lemma_trim_of_trimmed(data);
}

/// An element that was read is the first of the nodes that are read at its position.
proof fn lemma_nodes_after_element(s: Seq<char>, p: int, value: NodeView, next: int)
    requires
        element_at(s, p) == (Parsed::Done { value, next }),
        p < next <= s.len(),
    ensures
        nodes_at(s, p) == (seq![value] + nodes_at(s, next).0, nodes_at(s, next).1),
{
}

/// Text that was read where no element could be is the first of the nodes that are
/// read at its position.
proof fn lemma_nodes_after_text(s: Seq<char>, p: int, data: Seq<char>, next: int)
    requires
        !(element_at(s, p) is Done),
        text_at(s, p) == (Parsed::Done { value: data, next }),
        data.len() > 0,
        p < next <= s.len(),
    ensures
        nodes_at(s, p) == (seq![text_node(data)] + nodes_at(s, next).0, nodes_at(s, next).1),
{
}

/// An opening tag without attributes.
proof fn lemma_plain_open_tag(s: Seq<char>, i: int, name: Seq<char>)
    requires
        occurs(s, i, seq!['<'] + name + seq!['>']),
        is_name(name),
    ensures
        open_tag_at(s, i) == (Parsed::Done {
            value: (name, Seq::<Pair>::empty()),
            next: i + name.len() + 2,
        }),
{
    let lt = seq!['<'];
    let gt = seq!['>'];
    lemma_occurs_split(s, i, lt + name, gt);
    lemma_occurs_split(s, i, lt, name);
    let gt_at = i + 1 + name.len();
    assert(s[i + 0] == lt[0]);
    assert(s[gt_at + 0] == gt[0]);
    lemma_occurs_name(s, i + 1, name);
    lemma_no_blank(s, gt_at);
    lemma_run_end_is(s, gt_at, gt_at, CharClass::Letter);
    assert(attribute_at(s, gt_at) is Miss);
    assert(attributes_at(s, gt_at) == (Parsed::Done { value: Seq::<Pair>::empty(), next: gt_at }));
    assert(s.subrange(i + 1, gt_at) =~= name);
}

/// A closing tag.
proof fn lemma_close_tag(s: Seq<char>, i: int, name: Seq<char>)
    requires
        occurs(s, i, seq!['<', '/'] + name + seq!['>']),
        is_name(name),
    ensures
        close_tag_at(s, i) == (Parsed::Done { value: name, next: i + name.len() + 3 }),
        blank_end(s, i) == i,
{
    let lts = seq!['<', '/'];
    let gt = seq!['>'];
    lemma_occurs_split(s, i, lts + name, gt);
    lemma_occurs_split(s, i, lts, name);
    let end_at = i + 2 + name.len();
    assert(s[i + 0] == lts[0]);
    assert(s[i + 1] == lts[1]);
    assert(s[end_at + 0] == gt[0]);
    lemma_no_blank(s, i);
    lemma_occurs_name(s, i + 2, name);
    assert(s.subrange(i + 2, end_at) =~= name);
}

/// What may follow a list of nodes in markup: the end of the input, or a closing tag.
pub open spec fn closes(s: Seq<char>, p: int) -> bool {
    p == s.len() || (0 <= p < s.len() - 1 && s[p] == '<' && s[p + 1] == '/')
}

/// The first character of the markup of a node that fits the grammar: `<` for an
/// element, and neither `<` nor white space for text.
proof fn lemma_markup_head(n: Node)
    requires
        n.writable(),
    ensures
        n.markup().len() > 0,
        n.node_type is Element ==> n.markup()[0] == '<',
        n.node_type is Text ==> n.markup()[0] != '<' && !is_space(n.markup()[0]),
{
}

/// The markup of an element that fits the grammar, wherever it stands, is read as a
/// whole and gives the element.
pub proof fn lemma_element_parses(s: Seq<char>, i: int, n: Node)
    requires
        n.writable(),
        n.node_type is Element,
        occurs(s, i, n.markup()),
    ensures
        element_at(s, i) == (Parsed::Done { value: n@, next: i + n.markup().len() }),
    decreases n, 0nat,
{
    let e = n.node_type->Element_0;
    let tag = e.tag_name@;
    let keys = e.attributes.keys();
    let values = e.attributes.values();
    let am = attributes_markup(keys, values, 0);
    let cm = markup_from(n.children@, 0);
    let lt = seq!['<'];
    let gt = seq!['>'];
    let lts = seq!['<', '/'];
    assert(n.markup() == lt + tag + am + gt + cm + lts + tag + gt);
    let tag_at = i + 1;
    let attrs_at = tag_at + tag.len();
    let gt_at = attrs_at + am.len();
    let body_at = gt_at + 1;
    let close_at = body_at + cm.len();
    let name_at = close_at + 2;
    let end_at = name_at + tag.len();
    lemma_occurs_split(s, i, lt + tag + am + gt + cm + lts + tag, gt);
    lemma_occurs_split(s, i, lt + tag + am + gt + cm + lts, tag);
    lemma_occurs_split(s, i, lt + tag + am + gt + cm, lts);
    lemma_occurs_split(s, i, lt + tag + am + gt, cm);
    lemma_occurs_split(s, i, lt + tag + am, gt);
    lemma_occurs_split(s, i, lt + tag, am);
    lemma_occurs_split(s, i, lt, tag);
    assert(s[i + 0] == lt[0]);
    assert(s[gt_at + 0] == gt[0]);
    assert(s[close_at + 0] == lts[0]);
    assert(s[close_at + 1] == lts[1]);
    assert(s[end_at + 0] == gt[0]);
    // the opening tag
    if am.len() > 0 {
        assert(am[0] == ' ');
        assert(s[attrs_at + 0] == am[0]);
    }
    lemma_occurs_name(s, tag_at, tag);
    assert(is_name(tag) && e.attributes.wf());
    assert forall|j: int| 0 <= j < keys.len() implies is_name(#[trigger] keys[j]) && is_value(
        values[j]@,
    ) by {
        assert(is_name(e.attributes.keys()[j]) && is_value(e.attributes.values()[j]@));
    }
    lemma_attributes_parse(s, attrs_at, keys, values, 0);
    lemma_pairs_map(keys, values);
    assert(s.subrange(i + 1, attrs_at) =~= tag);
    let pairs = pairs_from(keys, values, 0);
    assert(open_tag_at(s, i) == (Parsed::Done { value: (tag, pairs), next: body_at }));
    // the children
    assert(closes(s, close_at));
    if n.children@.len() > 0 {
        lemma_markup_head(*n.children@[0]);
        assert(cm == n.children@[0].markup() + markup_from(n.children@, 1));
        assert(cm[0] == n.children@[0].markup()[0]);
        assert(s[body_at + 0] == cm[0]);
    } else {
        assert(cm.len() == 0);
    }
    lemma_no_blank(s, body_at);
    lemma_nodes_parse(s, body_at, n.children@, 0);
    assert(views(n.children@).subrange(0, n.children@.len() as int) =~= views(n.children@));
    // the closing tag
    lemma_no_blank(s, close_at);
    lemma_occurs_name(s, name_at, tag);
    assert(s.subrange(close_at + 2, end_at) =~= tag);
    assert(close_tag_at(s, close_at) == (Parsed::Done { value: tag, next: end_at + 1 }));
    n.lemma_model();
    assert(n@ == element_node(tag, pairs_map(pairs), views(n.children@)));
}

/// The markup of nodes that fit the grammar, followed by the end of the input or by a
/// closing tag, is read node by node and gives the nodes.
pub proof fn lemma_nodes_parse(s: Seq<char>, p: int, nodes: Seq<Box<Node>>, k: int)
    requires
        0 <= k <= nodes.len(),
        all_writable(nodes),
        occurs(s, p, markup_from(nodes, k)),
        closes(s, p + markup_from(nodes, k).len()),
    ensures
        nodes_at(s, p) == (
            views(nodes).subrange(k, nodes.len() as int),
            p + markup_from(nodes, k).len(),
        ),
    decreases nodes, nodes.len() - k,
{
    let all = markup_from(nodes, k);
    if k == nodes.len() {
        lemma_nodes_end(s, p);
        assert(views(nodes).subrange(k, nodes.len() as int) =~= Seq::<NodeView>::empty());
    } else {
        let n = *nodes[k];
        let one = n.markup();
        let rest = markup_from(nodes, k + 1);
        assert(all == one + rest);
        lemma_occurs_split(s, p, one, rest);
        lemma_markup_head(n);
        let q = p + one.len();
        n.lemma_model();
        lemma_nodes_parse(s, q, nodes, k + 1);
        let tail = views(nodes).subrange(k + 1, nodes.len() as int);
        assert(seq![n@] + tail =~= views(nodes).subrange(k, nodes.len() as int));
        match n.node_type {
            NodeType::Element(_) => {
                lemma_element_parses(s, p, n);
                lemma_nodes_after_element(s, p, n@, q);
            },
            NodeType::Text(t) => {
                // the text runs to the next `<` or to the end
                if k + 1 < nodes.len() {
                    let next = *nodes[k + 1];
                    assert(text_stands_at(nodes, k));
                    assert(!text_stands_at(nodes, k + 1));
                    assert(next.node_type is Element);
                    lemma_markup_head(next);
                    assert(rest == next.markup() + markup_from(nodes, k + 2));
                    assert(rest[0] == next.markup()[0]);
                    assert(s[q + 0] == rest[0]);
                } else {
                    assert(rest.len() == 0);
                }
                lemma_text_parses(s, p, one);
                assert(n@ == text_node(one)) by {
                    assert(n@.children =~= Seq::<NodeView>::empty());
                }
                lemma_nodes_after_text(s, p, one, q);
            },
        }
    }
}

/// Well-formed markup parses, and parses to the trees that it was written from: the
/// markup of trees that fit the grammar is read to its end and gives these trees, so
/// the result has one element for each pair of tags in the markup.
pub proof fn lemma_markup_parses_back(nodes: Seq<Box<Node>>)
    requires
        all_writable(nodes),
    ensures
        document(markup_from(nodes, 0)) == Ok::<Seq<NodeView>, int>(views(nodes)),
        document(markup_from(nodes, 0)) matches Ok(parsed) && elements_from(parsed, 0)
            == elements_from(views(nodes), 0),
{
    let s = markup_from(nodes, 0);
    lemma_nodes_parse(s, 0, nodes, 0);
    assert(views(nodes).subrange(0, nodes.len() as int) =~= views(nodes));
}

/// A mismatch of tag names always fails: an element whose closing tag bears another
/// name than its opening tag is not read, whatever stands between the tags, and markup
/// that consists of such an element does not parse.
pub proof fn lemma_mismatched_tags_fail(open: Seq<char>, close: Seq<char>, children: Seq<Box<Node>>)
    requires
        is_name(open),
        is_name(close),
        open != close,
        all_writable(children),
    ensures
        element_at(
            seq!['<'] + open + seq!['>'] + markup_from(children, 0) + seq!['<', '/'] + close + seq![
                '>',
            ],
            0,
        ) is Fail,
        document(
            seq!['<'] + open + seq!['>'] + markup_from(children, 0) + seq!['<', '/'] + close + seq![
                '>',
            ],
        ) == Err::<Seq<NodeView>, int>(0),
{
    let lt = seq!['<'];
    let gt = seq!['>'];
    let lts = seq!['<', '/'];
    let cm = markup_from(children, 0);
    let s = lt + open + gt + cm + lts + close + gt;
    let body_at: int = open.len() as int + 2;
    let close_at: int = body_at + cm.len();
    assert(occurs(s, 0, s));
    assert(s =~= (lt + open + gt) + cm + (lts + close + gt));
    lemma_occurs_split(s, 0, lt + open + gt + cm, lts + close + gt);
    lemma_occurs_split(s, 0, lt + open + gt, cm);
    lemma_plain_open_tag(s, 0, open);
    lemma_close_tag(s, close_at, close);
    assert(closes(s, close_at)) by {
        let tail = lts + close + gt;
        assert(s[close_at + 0] == tail[0]);
        assert(s[close_at + 1] == tail[1]);
    }
    if children.len() > 0 {
        lemma_markup_head(*children[0]);
        assert(cm == children[0].markup() + markup_from(children, 1));
        assert(cm[0] == children[0].markup()[0]);
        assert(s[body_at + 0] == cm[0]);
    } else {
        assert(cm.len() == 0);
    }
    lemma_no_blank(s, body_at);
    lemma_nodes_parse(s, body_at, children, 0);
    assert(element_at(s, 0) is Fail);
    lemma_run_end_is(s, 0, 0, CharClass::Except('<'));
    assert(s[0int + 0] == (lt + open + gt)[0]);
    assert(text_at(s, 0) is Miss);
}

} // verus!
