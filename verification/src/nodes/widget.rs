use crate::nodes::node::Node;
use crate::surface::Handle;
use vstd::prelude::*;

verus! {

/// A reference to a mounted widget: its name, and the handle of the root of
/// its own tree.
#[derive(Clone, Debug)]
pub struct Widget {
    pub name: String,
    pub dom_node: Handle,
}

/// The mathematical value of a [`Widget`].
pub struct WidgetView {
    pub name: Seq<char>,
    pub handle: Handle,
}

impl View for Widget {
    type V = WidgetView;

    open spec fn view(&self) -> WidgetView {
        WidgetView { name: self.name@, handle: self.dom_node }
    }
}

impl Widget {
    /// This widget as a node of another widget's tree.
    pub fn node(self) -> (node: Node)
        ensures
            node == Node::Widget(self),
    {
        Node::Widget(self)
    }
}

} // verus!
