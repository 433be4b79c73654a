//! The layout engine: the box tree of a styled tree.
//!
//! Every styled node gets a block box or an inline box, as it is displayed. Inside a
//! block box, inline children do not stand beside block children: each run of inline
//! children that follow one another is put into one anonymous box. Inside an inline
//! box the children stand as they come.

use crate::css::CssValueView;
use crate::dom::{NodeType, NodeTypeView};
use crate::style::{display_of, styled_views, visible, Display, PropertyMap, StyledNode, StyledView};
use vstd::prelude::*;

verus! {

/// A box with the boxes inside it.
#[derive(Debug, PartialEq)]
pub struct LayoutBox<'a> {
    pub box_type: BoxType<'a>,
    pub children: Vec<LayoutBox<'a>>,
}

/// What kind of box a box is.
#[derive(Debug, PartialEq)]
pub enum BoxType<'a> {
    /// The box of a node that is displayed as a block.
    BlockBox(BoxProps<'a>),
    /// The box of a node that is displayed inline.
    InlineBox(BoxProps<'a>),
    /// A box that no node stands for: it holds a run of inline boxes inside a block box.
    AnonymousBox,
}

/// What a box knows of its node: what the node is, and its properties.
#[derive(Debug, PartialEq)]
pub struct BoxProps<'a> {
    pub node_type: &'a NodeType,
    pub properties: PropertyMap,
}

/// What a box knows of its node, as plain data.
pub struct BoxPropsView {
    pub node_type: NodeTypeView,
    pub properties: Map<Seq<char>, CssValueView>,
}

/// What kind of box a box is, as plain data.
pub enum BoxTypeView {
    Block(BoxPropsView),
    Inline(BoxPropsView),
    Anonymous,
}

/// A box tree, as plain data.
pub struct BoxView {
    pub box_type: BoxTypeView,
    pub children: Seq<BoxView>,
}

impl<'a> View for BoxProps<'a> {
    type V = BoxPropsView;

    open spec fn view(&self) -> BoxPropsView {
        BoxPropsView { node_type: self.node_type@, properties: self.properties.content() }
    }
}

impl<'a> View for BoxType<'a> {
    type V = BoxTypeView;

    open spec fn view(&self) -> BoxTypeView {
        match self {
            BoxType::BlockBox(p) => BoxTypeView::Block(p@),
            BoxType::InlineBox(p) => BoxTypeView::Inline(p@),
            BoxType::AnonymousBox => BoxTypeView::Anonymous,
        }
    }
}

/// The trees of a list of boxes, as plain data.
pub open spec fn box_views(boxes: Seq<LayoutBox>) -> Seq<BoxView> {
    Seq::new(boxes.len(), |i: int| boxes[i].model())
}

impl<'a> LayoutBox<'a> {
    /// The box tree below and including this box, as plain data.
    pub open spec fn model(&self) -> BoxView
        decreases self,
    {
        BoxView {
            box_type: self.box_type@,
            children: Seq::new(
                self.children@.len(),
                |i: int|
                    if 0 <= i < self.children@.len() {
                        self.children@[i].model()
                    } else {
                        arbitrary()
                    },
            ),
        }
    }

    /// The children of a box's tree are the trees of its children.
    pub proof fn lemma_model(&self)
        ensures
            self@.box_type == self.box_type@,
            self@.children == box_views(self.children@),
    {
        assert(self@.children =~= box_views(self.children@));
    }
}

impl<'a> View for LayoutBox<'a> {
    type V = BoxView;

    open spec fn view(&self) -> BoxView {
        self.model()
    }
}

/// The kind of box that a styled node gets: a block box or an inline box, as the node
/// is displayed. (A node that is not displayed has no box; it does not occur in a
/// styled tree.)
pub open spec fn box_type_of(s: StyledView) -> BoxTypeView {
    let props = BoxPropsView { node_type: s.node_type, properties: s.properties };
    match display_of(s.node_type, s.properties) {
        Display::Inline => BoxTypeView::Inline(props),
        Display::Block => BoxTypeView::Block(props),
        Display::Hidden => BoxTypeView::Anonymous,
    }
}

/// An anonymous box around the given boxes.
pub open spec fn anonymous(children: Seq<BoxView>) -> BoxView {
    BoxView { box_type: BoxTypeView::Anonymous, children }
}

/// The boxes inside a box once `child` is added behind `boxes`. A block box is added
/// as it is. An inline box is added as it is inside a box that is no block box; inside
/// a block box it goes into the anonymous box at the end, which is added first if the
/// last box is none.
pub open spec fn place(boxes: Seq<BoxView>, child: BoxView, in_block: bool) -> Seq<BoxView> {
    match child.box_type {
        BoxTypeView::Block(_) => boxes.push(child),
        BoxTypeView::Inline(_) => if !in_block {
            boxes.push(child)
        } else if boxes.len() > 0 && boxes.last().box_type is Anonymous {
            boxes.update(boxes.len() - 1, anonymous(boxes.last().children.push(child)))
        } else {
            boxes.push(anonymous(seq![child]))
        },
        BoxTypeView::Anonymous => boxes,
    }
}

/// The box tree of a styled tree.
pub open spec fn laid_out(s: StyledView) -> BoxView
    decreases s, 0nat,
{
    BoxView {
        box_type: box_type_of(s),
        children: place_from(s.children, 0, box_type_of(s) is Block, Seq::empty()),
    }
}

/// The boxes inside a box once the boxes of the styled trees `children[k..]` are added,
/// one after the other, behind `boxes`.
pub open spec fn place_from(
    children: Seq<StyledView>,
    k: int,
    in_block: bool,
    boxes: Seq<BoxView>,
) -> Seq<BoxView>
    decreases children, children.len() - k,
{
    if 0 <= k < children.len() {
        place_from(children, k + 1, in_block, place(boxes, laid_out(children[k]), in_block))
    } else {
        boxes
    }
}

/// The line that describes a node in a dump: `tag: ` and the name of an element,
/// `text: ` and the data of text.
pub open spec fn props_text(p: BoxPropsView) -> Seq<char> {
    match p.node_type {
        NodeTypeView::Element(e) => "tag: "@ + e.tag_name,
        NodeTypeView::Text(t) => "text: "@ + t.data,
    }
}

/// The line that describes a kind of box in a dump.
pub open spec fn box_type_text(t: BoxTypeView) -> Seq<char> {
    match t {
        BoxTypeView::Block(p) => "BlockBox "@ + props_text(p),
        BoxTypeView::Inline(p) => "InlineBox "@ + props_text(p),
        BoxTypeView::Anonymous => "AnonymousBox"@,
    }
}

/// Two blanks for each level of nesting.
pub open spec fn indent(nest: nat) -> Seq<char>
    decreases nest,
{
    if nest == 0 {
        Seq::empty()
    } else {
        indent((nest - 1) as nat) + seq![' ', ' ']
    }
}

/// The dump of a box tree: one line for each box, `- ` and its kind, indented by its
/// depth below `nest`, a box before the boxes inside it.
pub open spec fn debug_text(b: BoxView, nest: nat) -> Seq<char>
    decreases b, 0nat,
{
    indent(nest) + "- "@ + box_type_text(b.box_type) + seq!['\n'] + debug_from(
        b.children,
        0,
        nest + 1,
    )
}

/// The dumps of the box trees `boxes[k..]`, one after the other.
pub open spec fn debug_from(boxes: Seq<BoxView>, k: int, nest: nat) -> Seq<char>
    decreases boxes, boxes.len() - k,
{
    if 0 <= k < boxes.len() {
        debug_text(boxes[k], nest) + debug_from(boxes, k + 1, nest)
    } else {
        Seq::empty()
    }
}

impl<'a> BoxProps<'a> {
    fn from(snode: &StyledNode<'a>) -> (props: Self)
        ensures
            props@ == (BoxPropsView {
                node_type: snode@.node_type,
                properties: snode@.properties,
            }),
    {
        let properties = snode.properties.clone();
        proof {
            snode.lemma_model();
            assert(properties.values() =~= snode.properties.values());
        }
        BoxProps { node_type: snode.node_type, properties }
    }

    /// The line that describes the node in a dump: see [`props_text`].
    pub fn to_text(&self) -> (r: String)
        ensures
            r@ == props_text(self@),
    {
        match self.node_type {
            NodeType::Element(e) => {
                let mut r = "tag: ".to_owned();
                r.append(e.tag_name.as_str());
                r
            },
            NodeType::Text(t) => {
                let mut r = "text: ".to_owned();
                r.append(t.data.as_str());
                r
            },
        }
    }
}

impl<'a> BoxType<'a> {
    /// What the box knows of its node; `None` for an anonymous box.
    pub fn get_props(&self) -> (r: Option<&BoxProps<'a>>)
        ensures
            match *self {
                BoxType::BlockBox(p) => r == Some(&p),
                BoxType::InlineBox(p) => r == Some(&p),
                BoxType::AnonymousBox => r is None,
            },
    {
        match self {
            BoxType::BlockBox(p) => Some(p),
            BoxType::InlineBox(p) => Some(p),
            BoxType::AnonymousBox => None,
        }
    }

    /// Whether the box takes part in a line: whether it is an inline box or an
    /// anonymous box.
    pub fn is_inline(&self) -> (r: bool)
        ensures
            r == !(*self is BlockBox),
            r == !(self@ is Block),
    {
        match self {
            BoxType::InlineBox(_) => true,
            BoxType::AnonymousBox => true,
            BoxType::BlockBox(_) => false,
        }
    }

    /// The line that describes the kind of box in a dump: see [`box_type_text`].
    pub fn to_text(&self) -> (r: String)
        ensures
            r@ == box_type_text(self@),
    {
        match self {
            BoxType::BlockBox(p) => {
                let mut r = "BlockBox ".to_owned();
                r.append(p.to_text().as_str());
                r
            },
            BoxType::InlineBox(p) => {
                let mut r = "InlineBox ".to_owned();
                r.append(p.to_text().as_str());
                r
            },
            BoxType::AnonymousBox => "AnonymousBox".to_owned(),
        }
    }
}

impl<'a> LayoutBox<'a> {
    fn anonymous_block() -> (r: Self)
        ensures
            r.box_type is AnonymousBox,
            r.children@.len() == 0,
            r@ == anonymous(Seq::empty()),
    {
        let r = LayoutBox { box_type: BoxType::AnonymousBox, children: Vec::new() };
        proof {
            r.lemma_model();
            assert(box_views(r.children@) =~= Seq::<BoxView>::empty());
        }
        r
    }

    /// The box tree of a styled tree: see [`laid_out`]. The tree is fixed up, and the
    /// boxes inside the root are, once the anonymous boxes are taken away, the boxes of
    /// the children in their order. Every node of the styled tree must be one that is
    /// displayed, as in the trees that the style resolver makes.
    pub fn new(snode: StyledNode<'a>) -> (root: Self)
        requires
            visible(snode@),
        ensures
            root@ == laid_out(snode@),
            fixed_up(root@),
            ungrouped(root@.children) == boxes_of(snode@.children, snode@.children.len() as int),
    {
        proof {
            lemma_laid_out_is_fixed_up(snode@);
        }
        Self::build(&snode)
    }

    fn build(snode: &StyledNode<'a>) -> (root: Self)
        requires
            visible(snode@),
        ensures
            root@ == laid_out(snode@),
        decreases snode,
    {
        proof {
            snode.lemma_model();
        }
        let box_type = match snode.display() {
            Display::Inline => BoxType::InlineBox(BoxProps::from(snode)),
            Display::Block => BoxType::BlockBox(BoxProps::from(snode)),
            Display::Hidden => unreached(),
        };
        let mut root = LayoutBox { box_type, children: Vec::new() };
        let ghost in_block = box_type_of(snode@) is Block;
        let n = snode.children.len();
        let mut i: usize = 0;
        proof {
            root.lemma_model();
            assert(box_views(root.children@) =~= Seq::<BoxView>::empty());
        }
        while i < n
            invariant
                0 <= i <= n,
                n == snode.children@.len(),
                visible(snode@),
                snode@.children == styled_views(snode.children@),
                root.box_type@ == box_type_of(snode@),
                in_block == (box_type_of(snode@) is Block),
                place_from(snode@.children, i as int, in_block, box_views(root.children@))
                    == place_from(snode@.children, 0, in_block, Seq::empty()),
            decreases n - i,
        {
            assert(visible(snode@.children[i as int]));
            let child = LayoutBox::build(&snode.children[i]);
            let ghost before = box_views(root.children@);
            let ghost cv = child@;
            match child.box_type {
                BoxType::BlockBox(_) => {
                    root.children.push(child);
                    proof {
                        child.lemma_model();
                        assert(box_views(root.children@) =~= before.push(cv));
                    }
                },
                BoxType::InlineBox(_) => {
                    let ghost old_children = root.children@;
                    let container = root.get_inline_container();
                    let ghost held = *container;
                    container.children.push(child);
                    proof {
                        child.lemma_model();
                        held.lemma_model();
                        let m = old_children.len() as int;
                        if !in_block {
                            assert(box_views(root.children@) =~= before.push(cv));
                        } else if m > 0 && old_children[m - 1].box_type is AnonymousBox {
                            old_children[m - 1].lemma_model();
                            root.children@[m - 1].lemma_model();
                            assert(box_views(root.children@[m - 1].children@) =~= box_views(
                                old_children[m - 1].children@,
                            ).push(cv));
                            assert(box_views(root.children@) =~= before.update(
                                m - 1,
                                anonymous(before[m - 1].children.push(cv)),
                            ));
                        } else {
                            root.children@[m].lemma_model();
                            assert(box_views(root.children@[m].children@) =~= seq![cv]);
                            if m > 0 {
                                old_children[m - 1].lemma_model();
                            }
                            assert(box_views(root.children@) =~= before.push(
                                anonymous(seq![cv]),
                            ));
                        }
                    }
                },
                BoxType::AnonymousBox => {
                    proof {
                        child.lemma_model();
                    }
                },
            }
            i += 1;
        }
        proof {
            root.lemma_model();
        }
        root
    }

    fn get_inline_container(&mut self) -> (container: &mut LayoutBox<'a>)
        ensures
            !(old(self).box_type is BlockBox) ==> *container == *old(self) && *final(self)
                == *final(container),
            old(self).box_type is BlockBox ==> final(self).box_type == old(self).box_type,
            old(self).box_type is BlockBox && old(self).children@.len() > 0 && old(
                self,
            ).children@.last().box_type is AnonymousBox ==> *container == old(
                self,
            ).children@.last() && final(self).children@ == old(self).children@.update(
                old(self).children@.len() - 1,
                *final(container),
            ),
            old(self).box_type is BlockBox && !(old(self).children@.len() > 0 && old(
                self,
            ).children@.last().box_type is AnonymousBox) ==> container.box_type is AnonymousBox
                && container.children@.len() == 0 && final(self).children@ == old(
                self,
            ).children@.push(*final(container)),
    {
        match self.box_type {
            BoxType::InlineBox(_) => self,
            BoxType::AnonymousBox => self,
            BoxType::BlockBox(_) => {
                let n = self.children.len();
                let open = n > 0 && !self.children[n - 1].box_type.is_block_or_inline();
                if !open {
                    self.children.push(LayoutBox::anonymous_block());
                }
                let m = self.children.len();
                &mut self.children[m - 1]
            },
        }
    }

    fn write_debug(&self, pad: &String, out: &mut String, Ghost(nest): Ghost<nat>)
        requires
            pad@ == indent(nest),
        ensures
            final(out)@ == old(out)@ + debug_text(self@, nest),
        decreases self,
    {
        let ghost start = out@;
        out.append(pad.as_str());
        out.append("- ");
        out.append(self.box_type.to_text().as_str());
        out.push('\n');
        let mut deeper = pad.clone();
        deeper.append("  ");
        proof {
            self.lemma_model();
            reveal_strlit("  ");
            assert(deeper@ =~= indent(nest + 1));
        }
        let ghost head = start + (indent(nest) + "- "@ + box_type_text(self@.box_type) + seq![
            '\n',
        ]);
        proof {
            assert(out@ =~= head);
        }
        let n = self.children.len();
        let mut i: usize = 0;
        while i < n
            invariant
                0 <= i <= n,
                n == self.children@.len(),
                self@.children == box_views(self.children@),
                deeper@ == indent(nest + 1),
                out@ + debug_from(self@.children, i as int, nest + 1) == head + debug_from(
                    self@.children,
                    0,
                    nest + 1,
                ),
            decreases n - i,
        {
            let ghost before = out@;
            self.children[i].write_debug(&deeper, out, Ghost(nest + 1));
            proof {
                let one = debug_text(self@.children[i as int], nest + 1);
                let rest = debug_from(self@.children, i + 1, nest + 1);
                assert((before + one) + rest =~= before + (one + rest));
            }
            i += 1;
        }
        proof {
            assert(out@ + Seq::<char>::empty() =~= out@);
            assert(out@ =~= start + debug_text(self@, nest));
        }
    }

    /// A dump of the box tree for inspection: see [`debug_text`].
    pub fn debug(&self, nest: usize) -> (r: String)
        ensures
            r@ == debug_text(self@, nest as nat),
    {
        let mut pad = String::new();
        let mut i: usize = 0;
        while i < nest
            invariant
                0 <= i <= nest,
                pad@ == indent(i as nat),
            decreases nest - i,
        {
            pad.push(' ');
            pad.push(' ');
            proof {
                assert(pad@ =~= indent(i as nat) + seq![' ', ' ']);
            }
            i += 1;
        }
        let mut out = String::new();
        self.write_debug(&pad, &mut out, Ghost(nest as nat));
        proof {
            assert(Seq::<char>::empty() + debug_text(self@, nest as nat) =~= debug_text(
                self@,
                nest as nat,
            ));
        }
        out
    }
}

impl<'a> BoxType<'a> {
    fn is_block_or_inline(&self) -> (r: bool)
        ensures
            r == !(*self is AnonymousBox),
    {
        match self {
            BoxType::AnonymousBox => false,
            _ => true,
        }
    }
}

/// What holds of the boxes inside a box. Inside a block box there are block boxes and
/// anonymous boxes only, no two anonymous boxes follow one another, and each anonymous
/// box holds inline boxes, and at least one. Inside an inline box there are block boxes
/// and inline boxes only.
pub open spec fn grouped(boxes: Seq<BoxView>, in_block: bool) -> bool {
    if in_block {
        &&& forall|i: int| 0 <= i < boxes.len() ==> !((#[trigger] boxes[i]).box_type is Inline)
        &&& forall|i: int|
            0 <= i < boxes.len() - 1 ==> !((#[trigger] boxes[i]).box_type is Anonymous && boxes[i
                + 1].box_type is Anonymous)
        &&& forall|i: int|
            0 <= i < boxes.len() && (#[trigger] boxes[i]).box_type is Anonymous ==> boxes[i].children.len()
                > 0 && forall|j: int|
                0 <= j < boxes[i].children.len() ==> (#[trigger] boxes[i].children[j]).box_type is Inline
    } else {
        forall|i: int| 0 <= i < boxes.len() ==> !((#[trigger] boxes[i]).box_type is Anonymous)
    }
}

/// What holds of a box tree: the boxes inside every block box and every inline box are
/// grouped as [`grouped`] says, all the way down.
pub open spec fn fixed_up(b: BoxView) -> bool
    decreases b,
{
    &&& b.box_type is Block ==> grouped(b.children, true)
    &&& b.box_type is Inline ==> grouped(b.children, false)
    &&& forall|i: int| 0 <= i < b.children.len() ==> fixed_up(#[trigger] b.children[i])
}

/// The boxes with every anonymous box replaced by the boxes inside it.
pub open spec fn ungrouped(boxes: Seq<BoxView>) -> Seq<BoxView>
    decreases boxes.len(),
{
    if boxes.len() == 0 {
        Seq::empty()
    } else if boxes.last().box_type is Anonymous {
        ungrouped(boxes.drop_last()) + boxes.last().children
    } else {
        ungrouped(boxes.drop_last()).push(boxes.last())
    }
}

/// The box trees of the styled trees `children[..k]`.
pub open spec fn boxes_of(children: Seq<StyledView>, k: int) -> Seq<BoxView> {
    Seq::new(k as nat, |i: int| laid_out(children[i]))
}

/// The box of a node that is displayed is a block box or an inline box.
pub proof fn lemma_box_of_visible(s: StyledView)
    requires
        visible(s),
    ensures
        !(laid_out(s).box_type is Anonymous),
        laid_out(s).box_type is Block <==> display_of(s.node_type, s.properties) == Display::Block,
        laid_out(s).box_type is Inline <==> display_of(s.node_type, s.properties)
            == Display::Inline,
{
}

/// Adding one box keeps the boxes grouped, and adds the box to what they are once
/// ungrouped.
pub proof fn lemma_place(boxes: Seq<BoxView>, child: BoxView, in_block: bool)
    requires
        grouped(boxes, in_block),
        !(child.box_type is Anonymous),
        fixed_up(child),
        forall|i: int| 0 <= i < boxes.len() ==> fixed_up(#[trigger] boxes[i]),
    ensures
        grouped(place(boxes, child, in_block), in_block),
        forall|i: int|
            0 <= i < place(boxes, child, in_block).len() ==> fixed_up(
                #[trigger] place(boxes, child, in_block)[i],
            ),
        ungrouped(place(boxes, child, in_block)) == ungrouped(boxes).push(child),
{
    let placed = place(boxes, child, in_block);
    let n = boxes.len() as int;
    if child.box_type is Inline && in_block && n > 0 && boxes.last().box_type is Anonymous {
        let held = boxes.last().children;
        let grown = anonymous(held.push(child));
        assert(placed == boxes.update(n - 1, grown));
        assert(placed.drop_last() =~= boxes.drop_last());
        assert(ungrouped(boxes.drop_last()) + held.push(child) =~= (ungrouped(boxes.drop_last())
            + held).push(child));
        assert forall|i: int| 0 <= i < placed.len() implies fixed_up(#[trigger] placed[i]) by {
            if i == n - 1 {
                assert forall|j: int| 0 <= j < grown.children.len() implies fixed_up(
                    #[trigger] grown.children[j],
                ) by {
                    if j < held.len() {
                        assert(fixed_up(boxes[n - 1]));
                        assert(grown.children[j] == boxes[n - 1].children[j]);
                    }
                }
            } else {
                assert(placed[i] == boxes[i]);
            }
        }
        assert forall|i: int|
            0 <= i < placed.len() && (#[trigger] placed[i]).box_type is Anonymous implies placed[i].children.len()
            > 0 && forall|j: int|
            0 <= j < placed[i].children.len() ==> (#[trigger] placed[i].children[j]).box_type is Inline by {
            if i == n - 1 {
                assert forall|j: int| 0 <= j < placed[i].children.len() implies (#[trigger] placed[i].children[j]).box_type is Inline by {
                    if j < held.len() {
                        assert(placed[i].children[j] == boxes[n - 1].children[j]);
                    }
                }
            } else {
                assert(placed[i] == boxes[i]);
            }
        }
        assert forall|i: int| 0 <= i < placed.len() - 1 implies !((#[trigger] placed[i]).box_type is Anonymous
            && placed[i + 1].box_type is Anonymous) by {
            assert(placed[i] == boxes[i]);
            if i + 1 < n - 1 {
                assert(placed[i + 1] == boxes[i + 1]);
            }
        }
        assert forall|i: int| 0 <= i < placed.len() implies !((#[trigger] placed[i]).box_type is Inline) by {
            if i < n - 1 {
                assert(placed[i] == boxes[i]);
            }
        }
    } else {
        let added = if child.box_type is Inline && in_block {
            anonymous(seq![child])
        } else {
            child
        };
        assert(placed == boxes.push(added));
        assert(placed.drop_last() =~= boxes);
        assert(placed.last() == added);
        if child.box_type is Inline && in_block {
            assert(ungrouped(boxes) + seq![child] =~= ungrouped(boxes).push(child));
            assert forall|j: int| 0 <= j < added.children.len() implies fixed_up(
                #[trigger] added.children[j],
            ) by {}
        }
        assert forall|i: int| 0 <= i < placed.len() implies fixed_up(#[trigger] placed[i]) by {
            if i < n {
                assert(placed[i] == boxes[i]);
            }
        }
        if in_block {
            assert forall|i: int|
                0 <= i < placed.len() && (#[trigger] placed[i]).box_type is Anonymous implies placed[i].children.len()
                > 0 && forall|j: int|
                0 <= j < placed[i].children.len() ==> (#[trigger] placed[i].children[j]).box_type is Inline by {
                if i < n {
                    assert(placed[i] == boxes[i]);
                }
            }
            assert forall|i: int| 0 <= i < placed.len() - 1 implies !((#[trigger] placed[i]).box_type is Anonymous
                && placed[i + 1].box_type is Anonymous) by {
                assert(placed[i] == boxes[i]);
                if i + 1 < n {
                    assert(placed[i + 1] == boxes[i + 1]);
                }
            }
            assert forall|i: int| 0 <= i < placed.len() implies !((#[trigger] placed[i]).box_type is Inline) by {
                if i < n {
                    assert(placed[i] == boxes[i]);
                }
            }
        } else {
            assert forall|i: int| 0 <= i < placed.len() implies !((#[trigger] placed[i]).box_type is Anonymous) by {
                if i < n {
                    assert(placed[i] == boxes[i]);
                }
            }
        }
    }
}

/// The box tree of a styled tree in which every node is displayed is fixed up: inside
/// a block box, inline boxes stand in anonymous boxes, one for each run of inline
/// children that follow one another, and no block box stands beside an inline box.
pub proof fn lemma_laid_out_is_fixed_up(s: StyledView)
    requires
        visible(s),
    ensures
        fixed_up(laid_out(s)),
        ungrouped(laid_out(s).children) == boxes_of(s.children, s.children.len() as int),
    decreases s, 1nat,
{
    let in_block = box_type_of(s) is Block;
    assert(boxes_of(s.children, 0) =~= Seq::<BoxView>::empty());
    lemma_place_from(s.children, 0, in_block, Seq::empty());
}

/// The same for the boxes of a list of styled trees, added behind boxes that are
/// grouped already.
pub proof fn lemma_place_from(
    children: Seq<StyledView>,
    k: int,
    in_block: bool,
    boxes: Seq<BoxView>,
)
    requires
        0 <= k <= children.len(),
        forall|i: int| 0 <= i < children.len() ==> visible(#[trigger] children[i]),
        grouped(boxes, in_block),
        forall|i: int| 0 <= i < boxes.len() ==> fixed_up(#[trigger] boxes[i]),
        ungrouped(boxes) == boxes_of(children, k),
    ensures
        grouped(place_from(children, k, in_block, boxes), in_block),
        forall|i: int|
            0 <= i < place_from(children, k, in_block, boxes).len() ==> fixed_up(
                #[trigger] place_from(children, k, in_block, boxes)[i],
            ),
        ungrouped(place_from(children, k, in_block, boxes)) == boxes_of(
            children,
            children.len() as int,
        ),
    decreases children, children.len() - k,
{
    if k < children.len() {
        let child = laid_out(children[k]);
        lemma_laid_out_is_fixed_up(children[k]);
        lemma_box_of_visible(children[k]);
        lemma_place(boxes, child, in_block);
        assert(boxes_of(children, k).push(child) =~= boxes_of(children, k + 1));
        lemma_place_from(children, k + 1, in_block, place(boxes, child, in_block));
    }
}

} // verus!
