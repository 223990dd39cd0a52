use crate::draw::{handle_need, handle_need_all};
use crate::events::{listener_count, listener_count_all};
use crate::keyed::unique_keys;
use crate::nodes::element::{Element, ElementView};
use crate::nodes::text::{Text, TextView};
use crate::nodes::widget::{Widget, WidgetView};
use crate::surface::{Handle, Patch, PatchView, Surface};
use vstd::prelude::*;

verus! {

/// A node of the virtual tree.
#[derive(Debug)]
pub enum Node {
    Element(Element),
    Text(Text),
    Widget(Widget),
}

/// The mathematical value of a [`Node`].
pub enum NodeView {
    Element(ElementView),
    Text(TextView),
    Widget(WidgetView),
}

impl View for Node {
    type V = NodeView;

    open spec fn view(&self) -> NodeView
        decreases self,
    {
        match self {
            Node::Element(el) => NodeView::Element(el@),
            Node::Text(txt) => NodeView::Text(txt@),
            Node::Widget(widget) => NodeView::Widget(widget@),
        }
    }
}

/// The nodes behind a vector of owned nodes.
pub open spec fn nodes_view(nodes: Seq<Node>) -> Seq<NodeView>
    decreases nodes,
{
    Seq::new(
        nodes.len(),
        |i: int|
            if 0 <= i < nodes.len() {
                nodes[i]@
            } else {
                arbitrary()
            },
    )
}

/// What a pass over a node leaves behind.
pub struct Step {
    /// The node as it stands after the pass.
    pub node: NodeView,
    /// The patches that the pass recorded, in order.
    pub patches: Seq<PatchView>,
    /// The next handle that the surface gives out after the pass.
    pub next: int,
}

/// What a pass over a list of nodes leaves behind.
pub struct Steps {
    /// The nodes as they stand after the pass.
    pub nodes: Seq<NodeView>,
    /// The patches that the pass recorded, in order.
    pub patches: Seq<PatchView>,
    /// The next handle that the surface gives out after the pass.
    pub next: int,
}

impl NodeView {
    /// Whether the tree is drawn: every element and every text in it has a
    /// handle.
    pub open spec fn drawn(self) -> bool
        decreases self,
    {
        match self {
            NodeView::Element(el) => {
                &&& el.handle is Some
                &&& forall|i: int| 0 <= i < el.children.len() ==> (#[trigger] el.children[i]).drawn()
            },
            NodeView::Text(txt) => txt.handle is Some,
            NodeView::Widget(_) => true,
        }
    }

    /// Whether the tree is well formed: no element in it has two attributes
    /// of the same name, or two listeners for the same event.
    pub open spec fn well_formed(self) -> bool
        decreases self,
    {
        match self {
            NodeView::Element(el) => {
                &&& unique_keys(el.attrs)
                &&& unique_keys(el.listeners)
                &&& forall|i: int| 0 <= i < el.children.len() ==> (#[trigger] el.children[i]).well_formed()
            },
            _ => true,
        }
    }

    /// An upper bound on the handles that drawing and wiring this tree
    /// takes: one for each element, each text and each listener in it.
    pub open spec fn budget(self) -> nat {
        handle_need(self) + listener_count(self)
    }

    /// The handle of the surface object that shows this node, if it has one.
    pub open spec fn handle(self) -> Option<Handle> {
        match self {
            NodeView::Element(el) => el.handle,
            NodeView::Text(txt) => txt.handle,
            NodeView::Widget(widget) => Some(widget.handle),
        }
    }
}

/// The sum of the budgets of `nodes`.
pub open spec fn budget_all(nodes: Seq<NodeView>) -> nat {
    handle_need_all(nodes) + listener_count_all(nodes)
}

/// `amount`, or the largest `u64` if it is beyond that.
pub open spec fn capped(amount: nat) -> u64 {
    if amount <= u64::MAX {
        amount as u64
    } else {
        u64::MAX
    }
}

/// The sum of two amounts, capped at the largest `u64`.
pub fn capped_sum(a: u64, b: u64) -> (sum: u64)
    ensures
        sum == capped((a + b) as nat),
{
    if a > u64::MAX - b {
        u64::MAX
    } else {
        a + b
    }
}

impl Node {
    /// The element that this node is.
    pub fn element(&mut self) -> (element: &mut Element)
        requires
            *old(self) is Element,
        ensures
            *element == old(self)->Element_0,
            *final(self) == Node::Element(*final(element)),
    {
        match self {
            Node::Element(el) => el,
            _ => vstd::pervasive::unreached(),
        }
    }

    /// Appends this drawn node to the children of `to`, and hands it back.
    pub fn attach(self, surface: &mut Surface, to: Handle) -> (node: Node)
        requires
            self@.handle() is Some,
        ensures
            node == self,
            final(surface)@ == old(surface)@.record(
                seq![PatchView::AppendChild { parent: to, child: self@.handle().unwrap() }],
            ),
    {
        self.attach_borrow(surface, to);
        self
    }

    /// Appends this drawn node to the children of `to`.
    pub fn attach_borrow(&self, surface: &mut Surface, to: Handle)
        requires
            self@.handle() is Some,
        ensures
            final(surface)@ == old(surface)@.record(
                seq![PatchView::AppendChild { parent: to, child: self@.handle().unwrap() }],
            ),
    {
        match self.dom_node() {
            Some(node) => {
                surface.record(Patch::AppendChild { parent: to, child: node });
            },
            None => vstd::pervasive::unreached(),
        }
    }

    /// The budget of this tree, capped at the largest `u64`.
    #[verifier::loop_isolation(false)]
    pub fn budget(&self) -> (budget: u64)
        ensures
            budget == capped(self@.budget()),
        decreases self,
    {
        match self {
            Node::Element(el) => {
                let mut total: u64 = capped_sum(1, el.listeners.len() as u64);
                let ghost children = nodes_view(el.children@);
                assert(children.take(0) =~= Seq::empty());
                let mut i: usize = 0;
                while i < el.children.len()
                    invariant
                        i <= el.children.len(),
                        children == nodes_view(el.children@),
                        el@.listeners.len() == el.listeners.len(),
                        total == capped(1 + el@.listeners.len() + budget_all(children.take(i as int))),
                    decreases el.children.len() - i,
                {
                    proof {
                        assert(children.take(i + 1).drop_last() =~= children.take(i as int));
                        assert(children.take(i + 1).last() == el.children[i as int]@);
                    }
                    let child = el.children[i].budget();
                    total = capped_sum(total, child);
                    i += 1;
                }
                assert(children.take(el.children.len() as int) =~= children);
                total
            },
            Node::Text(_) => 1,
            Node::Widget(_) => 0,
        }
    }

    /// The handle of the surface object that shows this node: `None` for an
    /// element or a text that is not drawn yet.
    pub fn dom_node(&self) -> (handle: Option<Handle>)
        ensures
            handle == self@.handle(),
    {
        match self {
            Node::Element(el) => el.dom_element,
            Node::Text(txt) => txt.dom_text_node,
            Node::Widget(widget) => Some(widget.dom_node),
        }
    }
}

impl From<Element> for Node {
    fn from(el: Element) -> (node: Node) {
        Node::Element(el)
    }
}

impl vstd::std_specs::convert::FromSpecImpl<Element> for Node {
    open spec fn obeys_from_spec() -> bool {
        true
    }

    open spec fn from_spec(el: Element) -> Node {
        Node::Element(el)
    }
}

impl From<Text> for Node {
    fn from(txt: Text) -> (node: Node) {
        Node::Text(txt)
    }
}

impl vstd::std_specs::convert::FromSpecImpl<Text> for Node {
    open spec fn obeys_from_spec() -> bool {
        true
    }

    open spec fn from_spec(txt: Text) -> Node {
        Node::Text(txt)
    }
}

impl From<Widget> for Node {
    fn from(w: Widget) -> (node: Node) {
        Node::Widget(w)
    }
}

impl vstd::std_specs::convert::FromSpecImpl<Widget> for Node {
    open spec fn obeys_from_spec() -> bool {
        true
    }

    open spec fn from_spec(w: Widget) -> Node {
        Node::Widget(w)
    }
}

impl From<String> for Node {
    fn from(data: String) -> (node: Node) {
        Node::Text(Text { val: data, dom_text_node: None })
    }
}

impl vstd::std_specs::convert::FromSpecImpl<String> for Node {
    open spec fn obeys_from_spec() -> bool {
        true
    }

    open spec fn from_spec(data: String) -> Node {
        Node::Text(Text { val: data, dom_text_node: None })
    }
}

} // verus!
