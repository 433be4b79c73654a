//! The markup parser.
//!
//! ```text
//! document   := node*
//! node       := element | text
//! element    := open_tag S* node* S* close_tag        -- with the same name in both tags
//! open_tag   := '<' name S* attributes '>'
//! close_tag  := '<' '/' name '>'
//! attributes := (attribute S*)*
//! attribute  := name S* '=' S* '"' value '"'
//! name       := letter+
//! value      := (any character but '"')+
//! text       := (any character but '<')+
//! ```
//!
//! `S` is white space. An element is tried before text. Text is trimmed, and text that
//! is empty once trimmed leaves no node.
//!
//! Each rule of the grammar is a spec function on the characters of the input and a
//! position in them; the executable parser is proved to compute exactly these.

use crate::dom::{
    views, well_formed, AttrMap, Element, ElementView, Node, NodeTypeView, NodeView, Text, TextView,
};
use crate::parse::{prepend, rest_of, ParseError, Parsed};
use crate::text::{
    at, blank_end, from_chars, is_space, lemma_trim_is_trimmed, name_end, run_end, skip, to_chars,
    trim, trimmed, CharClass,
};
use vstd::prelude::*;

verus! {

/// A name with its value.
pub type Pair = (Seq<char>, Seq<char>);

/// The map that setting the pairs one after the other gives: of two pairs with one
/// name the later one stays.
pub open spec fn pairs_map(pairs: Seq<Pair>) -> Map<Seq<char>, Seq<char>>
    decreases pairs.len(),
{
    if pairs.len() == 0 {
        Map::empty()
    } else {
        pairs_map(pairs.drop_last()).insert(pairs.last().0, pairs.last().1)
    }
}

/// The tree of a text node.
pub open spec fn text_node(data: Seq<char>) -> NodeView {
    NodeView { node_type: NodeTypeView::Text(TextView { data }), children: Seq::empty() }
}

/// The tree of an element node.
pub open spec fn element_node(
    tag_name: Seq<char>,
    attributes: Map<Seq<char>, Seq<char>>,
    children: Seq<NodeView>,
) -> NodeView {
    NodeView { node_type: NodeTypeView::Element(ElementView { tag_name, attributes }), children }
}

/// `attribute := name S* '=' S* '"' value '"'`, read at `i`.
pub open spec fn attribute_at(s: Seq<char>, i: int) -> Parsed<Pair> {
    let a = name_end(s, i);
    let b = blank_end(s, a);
    let c = blank_end(s, b + 1);
    let d = run_end(s, c + 1, CharClass::Except('"'));
    if !(0 <= i < a) {
        Parsed::Miss
    } else if !(b < s.len() && s[b] == '=') {
        Parsed::Fail
    } else if !(c < s.len() && s[c] == '"') {
        Parsed::Fail
    } else if !(c + 1 < d && d < s.len()) {
        Parsed::Fail
    } else {
        Parsed::Done { value: (s.subrange(i, a), s.subrange(c + 1, d)), next: d + 1 }
    }
}

/// `attributes := (attribute S*)*`, read at `i`: the pairs in the order of the input.
/// Where no attribute begins the list ends; an attribute that begins and goes wrong
/// fails the list.
pub open spec fn attributes_at(s: Seq<char>, i: int) -> Parsed<Seq<Pair>>
    decreases s.len() - i,
{
    match attribute_at(s, i) {
        Parsed::Miss => Parsed::Done { value: Seq::empty(), next: i },
        Parsed::Fail => Parsed::Fail,
        Parsed::Done { value, next } => {
            let k = blank_end(s, next);
            if i < k <= s.len() {
                prepend(seq![value], attributes_at(s, k))
            } else {
                Parsed::Fail
            }
        },
    }
}

/// `open_tag := '<' name S* attributes '>'`, read at `i`: the name and the pairs.
pub open spec fn open_tag_at(s: Seq<char>, i: int) -> Parsed<(Seq<char>, Seq<Pair>)> {
    let a = name_end(s, i + 1);
    if !(0 <= i < s.len() && s[i] == '<') {
        Parsed::Miss
    } else if a == i + 1 {
        Parsed::Fail
    } else {
        match attributes_at(s, blank_end(s, a)) {
            Parsed::Done { value, next } => if next < s.len() && s[next] == '>' {
                Parsed::Done { value: (s.subrange(i + 1, a), value), next: next + 1 }
            } else {
                Parsed::Fail
            },
            _ => Parsed::Fail,
        }
    }
}

/// `close_tag := '<' '/' name '>'`, read at `i`: the name.
pub open spec fn close_tag_at(s: Seq<char>, i: int) -> Parsed<Seq<char>> {
    let a = name_end(s, i + 2);
    if !(0 <= i < s.len() && s[i] == '<') {
        Parsed::Miss
    } else if !(i + 1 < s.len() && s[i + 1] == '/') {
        Parsed::Fail
    } else if a == i + 2 {
        Parsed::Fail
    } else if !(a < s.len() && s[a] == '>') {
        Parsed::Fail
    } else {
        Parsed::Done { value: s.subrange(i + 2, a), next: a + 1 }
    }
}

/// `text := (any character but '<')+`, read at `i`: the characters, trimmed.
pub open spec fn text_at(s: Seq<char>, i: int) -> Parsed<Seq<char>> {
    let e = run_end(s, i, CharClass::Except('<'));
    if 0 <= i < e {
        Parsed::Done { value: trim(s.subrange(i, e)), next: e }
    } else {
        Parsed::Miss
    }
}

/// `element := open_tag S* node* S* close_tag`, read at `i`. The two tags must bear the
/// same name; if they do not, the element fails as a whole.
pub open spec fn element_at(s: Seq<char>, i: int) -> Parsed<NodeView>
    decreases s.len() - i, 0nat,
{
    match open_tag_at(s, i) {
        Parsed::Miss => Parsed::Miss,
        Parsed::Fail => Parsed::Fail,
        Parsed::Done { value: (name, pairs), next } => {
            let j = blank_end(s, next);
            if i < j <= s.len() {
                let (children, k) = nodes_at(s, j);
                match close_tag_at(s, blank_end(s, k)) {
                    Parsed::Done { value: close_name, next: end } => if close_name == name {
                        Parsed::Done {
                            value: element_node(name, pairs_map(pairs), children),
                            next: end,
                        }
                    } else {
                        Parsed::Fail
                    },
                    _ => Parsed::Fail,
                }
            } else {
                Parsed::Fail
            }
        },
    }
}

/// `node*`, read at `i`: the trees, and the position where no further node could be
/// read. At each position an element is tried first and text second; a node that
/// cannot be read leaves the position where it is. Text that is empty once trimmed is
/// read and left out.
pub open spec fn nodes_at(s: Seq<char>, i: int) -> (Seq<NodeView>, int)
    decreases s.len() - i, 1nat,
{
    match element_at(s, i) {
        Parsed::Done { value, next } => if i < next <= s.len() {
            let (rest, end) = nodes_at(s, next);
            (seq![value] + rest, end)
        } else {
            (Seq::empty(), i)
        },
        _ => match text_at(s, i) {
            Parsed::Done { value, next } => if i < next <= s.len() {
                let (rest, end) = nodes_at(s, next);
                if value.len() == 0 {
                    (rest, end)
                } else {
                    (seq![text_node(value)] + rest, end)
                }
            } else {
                (Seq::empty(), i)
            },
            _ => (Seq::empty(), i),
        },
    }
}

/// `document := node*`: the trees of the whole input, or the position of the first
/// character that belongs to no node.
pub open spec fn document(s: Seq<char>) -> Result<Seq<NodeView>, int> {
    let (nodes, end) = nodes_at(s, 0);
    if end == s.len() {
        Ok(nodes)
    } else {
        Err(end)
    }
}

/// The single root that stands for a list of top-level trees: the tree itself where
/// there is exactly one, else an `html` element without attributes that holds them all.
pub open spec fn root_of(nodes: Seq<NodeView>) -> NodeView {
    if nodes.len() == 1 {
        nodes[0]
    } else {
        element_node("html"@, Map::empty(), nodes)
    }
}

fn read_attribute(s: &[char], i: usize) -> (r: Result<((String, String), usize), ParseError>)
    requires
        i <= s@.len(),
    ensures
        match r {
            Ok((pair, j)) => attribute_at(s@, i as int) == (Parsed::Done {
                value: (pair.0@, pair.1@),
                next: j as int,
            }) && i < j <= s@.len(),
            Err(e) => !(attribute_at(s@, i as int) is Done) && e == attribute_at(
                s@,
                i as int,
            ).error(),
        },
{
    let a = skip(s, i, CharClass::Letter);
    if a == i {
        return Err(ParseError::NoMatch);
    }
    let b = skip(s, a, CharClass::Space);
    if !at(s, b, '=') {
        return Err(ParseError::Malformed);
    }
    let c = skip(s, b + 1, CharClass::Space);
    if !at(s, c, '"') {
        return Err(ParseError::Malformed);
    }
    let d = skip(s, c + 1, CharClass::Except('"'));
    if d == c + 1 || d >= s.len() {
        return Err(ParseError::Malformed);
    }
    let name = from_chars(s, i, a);
    let value = from_chars(s, c + 1, d);
    Ok(((name, value), d + 1))
}

fn read_attributes(s: &[char], i: usize) -> (r: Result<(AttrMap, usize), ParseError>)
    requires
        i <= s@.len(),
    ensures
        match r {
            Ok((attrs, j)) => attributes_at(s@, i as int) matches Parsed::Done { value, next }
                && attrs.content() == pairs_map(value) && j == next && i <= j <= s@.len(),
            Err(e) => attributes_at(s@, i as int) is Fail && e == ParseError::Malformed,
        },
{
    let mut attrs = AttrMap::new();
    let ghost mut pairs: Seq<Pair> = Seq::empty();
    let mut pos: usize = i;
    proof {
        assert(attrs.content() =~= pairs_map(pairs));
        let p = attributes_at(s@, i as int);
        if let Parsed::Done { value, next } = p {
            assert(pairs + value =~= value);
        }
    }
    loop
        invariant
            i <= pos <= s@.len(),
            attrs.wf(),
            attrs.content() == pairs_map(pairs),
            attributes_at(s@, i as int) == prepend(pairs, attributes_at(s@, pos as int)),
        decreases s@.len() - pos,
    {
        match read_attribute(s, pos) {
            Ok(((name, value), j)) => {
                let ghost before = attrs;
                let ghost kv = (name@, value@);
                attrs.insert(name, value);
                let k = skip(s, j, CharClass::Space);
                proof {
                    before.lemma_content_insert(&attrs, kv.0, value);
                    let grown = pairs.push(kv);
                    assert(grown.drop_last() =~= pairs);
                    assert(attrs.content() == pairs_map(grown));
                    let tail = attributes_at(s@, k as int);
                    assert(attributes_at(s@, pos as int) == prepend(seq![kv], tail));
                    if let Parsed::Done { value: rest, next } = tail {
                        assert(pairs + (seq![kv] + rest) =~= grown + rest);
                    }
                    pairs = grown;
                }
                pos = k;
            },
            Err(ParseError::NoMatch) => {
                proof {
                    assert(pairs + Seq::<Pair>::empty() =~= pairs);
                }
                return Ok((attrs, pos));
            },
            Err(_) => {
                return Err(ParseError::Malformed);
            },
        }
    }
}

fn read_open_tag(s: &[char], i: usize) -> (r: Result<((String, AttrMap), usize), ParseError>)
    requires
        i <= s@.len(),
    ensures
        match r {
            Ok((tag, j)) => open_tag_at(s@, i as int) matches Parsed::Done { value, next }
                && tag.0@ == value.0 && tag.1.content() == pairs_map(value.1) && j == next && i < j
                <= s@.len(),
            Err(e) => !(open_tag_at(s@, i as int) is Done) && e == open_tag_at(
                s@,
                i as int,
            ).error(),
        },
{
    if !at(s, i, '<') {
        return Err(ParseError::NoMatch);
    }
    let a = skip(s, i + 1, CharClass::Letter);
    if a == i + 1 {
        return Err(ParseError::Malformed);
    }
    let b = skip(s, a, CharClass::Space);
    match read_attributes(s, b) {
        Ok((attrs, c)) => {
            if !at(s, c, '>') {
                return Err(ParseError::Malformed);
            }
            let name = from_chars(s, i + 1, a);
            Ok(((name, attrs), c + 1))
        },
        Err(_) => Err(ParseError::Malformed),
    }
}

fn read_close_tag(s: &[char], i: usize) -> (r: Result<(String, usize), ParseError>)
    requires
        i <= s@.len(),
    ensures
        match r {
            Ok((name, j)) => close_tag_at(s@, i as int) == (Parsed::Done {
                value: name@,
                next: j as int,
            }) && i < j <= s@.len(),
            Err(e) => !(close_tag_at(s@, i as int) is Done) && e == close_tag_at(
                s@,
                i as int,
            ).error(),
        },
{
    if !at(s, i, '<') {
        return Err(ParseError::NoMatch);
    }
    if !at(s, i + 1, '/') {
        return Err(ParseError::Malformed);
    }
    let a = skip(s, i + 2, CharClass::Letter);
    if a == i + 2 {
        return Err(ParseError::Malformed);
    }
    if !at(s, a, '>') {
        return Err(ParseError::Malformed);
    }
    let name = from_chars(s, i + 2, a);
    Ok((name, a + 1))
}

fn read_text(s: &[char], i: usize) -> (r: Result<(String, usize), ParseError>)
    requires
        i <= s@.len(),
    ensures
        match r {
            Ok((data, j)) => text_at(s@, i as int) == (Parsed::Done {
                value: data@,
                next: j as int,
            }) && i < j <= s@.len(),
            Err(e) => text_at(s@, i as int) is Miss && e == ParseError::NoMatch,
        },
{
    let e = skip(s, i, CharClass::Except('<'));
    if e == i {
        return Err(ParseError::NoMatch);
    }
    let run = vstd::slice::slice_subrange(s, i, e);
    Ok((trimmed(run), e))
}

fn read_element(s: &[char], i: usize) -> (r: Result<(Box<Node>, usize), ParseError>)
    requires
        i <= s@.len(),
    ensures
        match r {
            Ok((node, j)) => element_at(s@, i as int) == (Parsed::Done {
                value: node@,
                next: j as int,
            }) && i < j <= s@.len(),
            Err(e) => !(element_at(s@, i as int) is Done) && e == element_at(
                s@,
                i as int,
            ).error(),
        },
    decreases s@.len() - i, 0nat,
{
    match read_open_tag(s, i) {
        Err(e) => Err(e),
        Ok(((name, attrs), next)) => {
            let j = skip(s, next, CharClass::Space);
            let (children, k) = read_nodes(s, j);
            let m = skip(s, k, CharClass::Space);
            match read_close_tag(s, m) {
                Ok((close_name, end)) => {
                    if name == close_name {
                        Ok((Element::new(name, attrs, children), end))
                    } else {
                        Err(ParseError::Malformed)
                    }
                },
                Err(_) => Err(ParseError::Malformed),
            }
        },
    }
}

fn read_nodes(s: &[char], i: usize) -> (r: (Vec<Box<Node>>, usize))
    requires
        i <= s@.len(),
    ensures
        (views(r.0@), r.1 as int) == nodes_at(s@, i as int),
        i <= r.1 <= s@.len(),
    decreases s@.len() - i, 1nat,
{
    let mut nodes: Vec<Box<Node>> = Vec::new();
    let mut pos: usize = i;
    proof {
        assert(views(nodes@) + nodes_at(s@, i as int).0 =~= nodes_at(s@, i as int).0);
    }
    loop
        invariant
            i <= pos <= s@.len(),
            nodes_at(s@, i as int) == (
                views(nodes@) + nodes_at(s@, pos as int).0,
                nodes_at(s@, pos as int).1,
            ),
        decreases s@.len() - pos,
    {
        let ghost before = views(nodes@);
        match read_element(s, pos) {
            Ok((node, j)) => {
                nodes.push(node);
                proof {
                    let rest = nodes_at(s@, j as int).0;
                    assert(views(nodes@) =~= before.push(node@));
                    assert(before + (seq![node@] + rest) =~= before.push(node@) + rest);
                }
                pos = j;
            },
            Err(_) => {
                match read_text(s, pos) {
                    Ok((data, j)) => {
                        let ghost rest = nodes_at(s@, j as int).0;
                        if !data.as_str().is_empty() {
                            let node = Text::new(data);
                            nodes.push(node);
                            proof {
                                assert(views(nodes@) =~= before.push(node@));
                                assert(before + (seq![node@] + rest) =~= before.push(node@)
                                    + rest);
                            }
                        }
                        pos = j;
                    },
                    Err(_) => {
                        proof {
                            assert(before + Seq::<NodeView>::empty() =~= before);
                        }
                        return (nodes, pos);
                    },
                }
            },
        }
    }
}

/// Reads one attribute, `name="value"`, at the beginning of `input`, and returns the
/// name, the value, and the rest of the input.
pub fn attribute<'a>(input: &'a str) -> (r: Result<((String, String), &'a str), ParseError>)
    ensures
        match r {
            Ok((pair, rest)) => attribute_at(input@, 0) matches Parsed::Done { value, next }
                && pair.0@ == value.0 && pair.1@ == value.1 && rest@ == input@.subrange(
                next,
                input@.len() as int,
            ),
            Err(e) => !(attribute_at(input@, 0) is Done) && e == attribute_at(input@, 0).error(),
        },
{
    let s = to_chars(input);
    match read_attribute(s.as_slice(), 0) {
        Ok((pair, j)) => Ok((pair, rest_of(input, j))),
        Err(e) => Err(e),
    }
}

/// Reads attributes, separated by white space, at the beginning of `input`, and returns
/// them as a map, with the rest of the input. Of two attributes with one name the later
/// one stays.
pub fn attributes<'a>(input: &'a str) -> (r: Result<(AttrMap, &'a str), ParseError>)
    ensures
        match r {
            Ok((attrs, rest)) => attributes_at(input@, 0) matches Parsed::Done { value, next }
                && attrs.content() == pairs_map(value) && rest@ == input@.subrange(
                next,
                input@.len() as int,
            ),
            Err(e) => attributes_at(input@, 0) is Fail && e == ParseError::Malformed,
        },
{
    let s = to_chars(input);
    match read_attributes(s.as_slice(), 0) {
        Ok((attrs, j)) => Ok((attrs, rest_of(input, j))),
        Err(e) => Err(e),
    }
}

/// Reads an opening tag, `<name attributes>`, at the beginning of `input`, and returns
/// the name, the attributes, and the rest of the input.
pub fn open_tag<'a>(input: &'a str) -> (r: Result<((String, AttrMap), &'a str), ParseError>)
    ensures
        match r {
            Ok((tag, rest)) => open_tag_at(input@, 0) matches Parsed::Done { value, next }
                && tag.0@ == value.0 && tag.1.content() == pairs_map(value.1) && rest@
                == input@.subrange(next, input@.len() as int),
            Err(e) => !(open_tag_at(input@, 0) is Done) && e == open_tag_at(input@, 0).error(),
        },
{
    let s = to_chars(input);
    match read_open_tag(s.as_slice(), 0) {
        Ok((tag, j)) => Ok((tag, rest_of(input, j))),
        Err(e) => Err(e),
    }
}

/// Reads a closing tag, `</name>`, at the beginning of `input`, and returns the name and
/// the rest of the input.
pub fn close_tag<'a>(input: &'a str) -> (r: Result<(String, &'a str), ParseError>)
    ensures
        match r {
            Ok((name, rest)) => close_tag_at(input@, 0) matches Parsed::Done { value, next }
                && name@ == value && rest@ == input@.subrange(next, input@.len() as int),
            Err(e) => !(close_tag_at(input@, 0) is Done) && e == close_tag_at(input@, 0).error(),
        },
{
    let s = to_chars(input);
    match read_close_tag(s.as_slice(), 0) {
        Ok((name, j)) => Ok((name, rest_of(input, j))),
        Err(e) => Err(e),
    }
}

/// Reads text up to the next `<` at the beginning of `input`, and returns a text node
/// with the trimmed text, and the rest of the input.
pub fn text<'a>(input: &'a str) -> (r: Result<(Box<Node>, &'a str), ParseError>)
    ensures
        match r {
            Ok((node, rest)) => text_at(input@, 0) matches Parsed::Done { value, next } && node@
                == text_node(value) && rest@ == input@.subrange(next, input@.len() as int),
            Err(e) => text_at(input@, 0) is Miss && e == ParseError::NoMatch,
        },
{
    let s = to_chars(input);
    match read_text(s.as_slice(), 0) {
        Ok((data, j)) => Ok((Text::new(data), rest_of(input, j))),
        Err(e) => Err(e),
    }
}

/// Reads one element, from its opening tag to its closing tag, at the beginning of
/// `input`, and returns its tree and the rest of the input.
pub fn element<'a>(input: &'a str) -> (r: Result<(Box<Node>, &'a str), ParseError>)
    ensures
        match r {
            Ok((node, rest)) => element_at(input@, 0) matches Parsed::Done { value, next }
                && node@ == value && rest@ == input@.subrange(next, input@.len() as int),
            Err(e) => !(element_at(input@, 0) is Done) && e == element_at(input@, 0).error(),
        },
{
    let s = to_chars(input);
    match read_element(s.as_slice(), 0) {
        Ok((node, j)) => Ok((node, rest_of(input, j))),
        Err(e) => Err(e),
    }
}

/// Parses markup into its top-level nodes. The whole input must be made of nodes: what
/// cannot be read fails the parse, and no part of a tree is returned.
pub fn parse_raw(raw: &str) -> (r: Result<Vec<Box<Node>>, ParseError>)
    ensures
        match r {
            Ok(nodes) => document(raw@) == Ok::<Seq<NodeView>, int>(views(nodes@)) && forall|
                k: int,
            |
                0 <= k < nodes@.len() ==> text_is_trimmed(#[trigger] views(nodes@)[k])
                    && well_formed(views(nodes@)[k]),
            Err(e) => document(raw@) matches Err(end) && e matches ParseError::Trailing { offset }
                && offset == end && 0 <= end < raw@.len(),
        },
{
    proof {
        lemma_document_text_is_trimmed(raw@);
    }
    let s = to_chars(raw);
    let (nodes, end) = read_nodes(s.as_slice(), 0);
    if end == s.len() {
        Ok(nodes)
    } else {
        Err(ParseError::Trailing { offset: end })
    }
}

/// Parses markup into a tree with a single root: the node itself where the markup holds
/// exactly one top-level node, else an `html` element around all of them.
pub fn parse(raw: &str) -> (r: Result<Box<Node>, ParseError>)
    ensures
        match r {
            Ok(root) => document(raw@) matches Ok(nodes) && root@ == root_of(nodes)
                && text_is_trimmed(root@) && well_formed(root@),
            Err(e) => document(raw@) matches Err(end) && e matches ParseError::Trailing { offset }
                && offset == end && 0 <= end < raw@.len(),
        },
{
    proof {
        lemma_document_text_is_trimmed(raw@);
    }
    match parse_raw(raw) {
        Ok(mut nodes) => {
            if nodes.len() == 1 {
                let ghost first = views(nodes@)[0];
                let root = nodes.pop().unwrap();
                assert(first == root@);
                Ok(root)
            } else {
                let attrs = AttrMap::new();
                assert(attrs.content() =~= Map::<Seq<char>, Seq<char>>::empty());
                Ok(Element::new("html".to_owned(), attrs, nodes))
            }
        },
        Err(e) => Err(e),
    }
}

/// Whether no text node of the tree is empty or begins or ends with white space.
pub open spec fn text_is_trimmed(n: NodeView) -> bool
    decreases n,
{
    &&& n.node_type matches NodeTypeView::Text(t) ==> t.data.len() > 0 && !is_space(t.data[0])
        && !is_space(t.data.last())
    &&& forall|i: int| 0 <= i < n.children.len() ==> text_is_trimmed(#[trigger] n.children[i])
}

/// An element that the parser reads is well formed, and holds no text node that is
/// empty or that begins or ends with white space.
pub proof fn lemma_element_text_is_trimmed(s: Seq<char>, i: int)
    ensures
        element_at(s, i) matches Parsed::Done { value, next } ==> text_is_trimmed(value)
            && well_formed(value),
    decreases s.len() - i, 0nat,
{
    if let Parsed::Done { value: (name, pairs), next } = open_tag_at(s, i) {
        let j = blank_end(s, next);
        if i < j <= s.len() {
            lemma_nodes_text_is_trimmed(s, j);
            if let Parsed::Done { value, next: end } = element_at(s, i) {
                assert(value.children == nodes_at(s, j).0);
                assert forall|k: int| 0 <= k < value.children.len() implies text_is_trimmed(
                    #[trigger] value.children[k],
                ) && well_formed(value.children[k]) by {
                    assert(text_is_trimmed(nodes_at(s, j).0[k]));
                }
            }
        }
    }
}

/// The nodes that the parser reads are well formed, and hold no text node that is
/// empty or that begins or ends with white space: white space between tags leaves no
/// node.
pub proof fn lemma_nodes_text_is_trimmed(s: Seq<char>, i: int)
    ensures
        forall|k: int|
            0 <= k < nodes_at(s, i).0.len() ==> text_is_trimmed(#[trigger] nodes_at(s, i).0[k])
                && well_formed(nodes_at(s, i).0[k]),
    decreases s.len() - i, 1nat,
{
    let all = nodes_at(s, i).0;
    match element_at(s, i) {
        Parsed::Done { value, next } => {
            if i < next <= s.len() {
                lemma_element_text_is_trimmed(s, i);
                lemma_nodes_text_is_trimmed(s, next);
                let rest = nodes_at(s, next).0;
                assert forall|k: int| 0 <= k < all.len() implies text_is_trimmed(#[trigger] all[k])
                    && well_formed(all[k]) by {
                    if k > 0 {
                        assert(all[k] == rest[k - 1]);
                    }
                }
            }
        },
        _ => {
            match text_at(s, i) {
                Parsed::Done { value, next } => {
                    if i < next <= s.len() {
                        lemma_nodes_text_is_trimmed(s, next);
                        let rest = nodes_at(s, next).0;
                        lemma_trim_is_trimmed(s.subrange(i, next));
                        assert forall|k: int| 0 <= k < all.len() implies text_is_trimmed(
                            #[trigger] all[k],
                        ) && well_formed(all[k]) by {
                            if value.len() == 0 {
                                assert(all[k] == rest[k]);
                            } else if k > 0 {
                                assert(all[k] == rest[k - 1]);
                            }
                        }
                    }
                },
                _ => {},
            }
        },
    }
}

/// Every tree that the parser returns is well formed, and none holds a text node that
/// is empty or that begins or ends with white space.
pub proof fn lemma_document_text_is_trimmed(s: Seq<char>)
    ensures
        document(s) matches Ok(nodes) ==> text_is_trimmed(root_of(nodes)) && well_formed(
            root_of(nodes),
        ) && forall|k: int|
            0 <= k < nodes.len() ==> text_is_trimmed(#[trigger] nodes[k]) && well_formed(nodes[k]),
{
    lemma_nodes_text_is_trimmed(s, 0);
}

} // verus!
