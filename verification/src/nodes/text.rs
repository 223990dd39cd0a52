use crate::nodes::node::Node;
use crate::surface::Handle;
use vstd::prelude::*;

verus! {

/// A run of text.
#[derive(Clone, Debug)]
pub struct Text {
    pub val: String,
    /// The text object that shows this node, once it is drawn.
    pub dom_text_node: Option<Handle>,
}

/// The mathematical value of a [`Text`].
pub struct TextView {
    pub val: Seq<char>,
    pub handle: Option<Handle>,
}

impl View for Text {
    type V = TextView;

    open spec fn view(&self) -> TextView {
        TextView { val: self.val@, handle: self.dom_text_node }
    }
}

impl Text {
    /// An undrawn text node that reads `val`.
    pub fn new(val: &str) -> (text: Text)
        ensures
            text@ == (TextView { val: val@, handle: None }),
    {
        Text { val: val.to_owned(), dom_text_node: None }
    }

    /// This text as a node of a tree.
    pub fn node(self) -> (node: Node)
        ensures
            node == Node::Text(self),
    {
        Node::Text(self)
    }
}

} // verus!
