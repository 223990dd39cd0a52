//! Drawing: a virtual tree is materialised on the surface from the root
//! down, and every element and text remembers the handle of the object that
//! shows it.

use crate::nodes::element::{attrs_view, Element, ElementView};
use crate::nodes::node::{nodes_view, Node, NodeView, Step, Steps};
use crate::nodes::text::{Text, TextView};
use crate::surface::{Handle, Patch, PatchView, Surface};
use vstd::prelude::*;

verus! {

/// How many handles drawing `node` takes: one for each element and each text
/// in it. A widget reference has been drawn when its widget was made.
pub open spec fn handle_need(node: NodeView) -> nat
    decreases node,
{
    match node {
        NodeView::Element(el) => 1 + handle_need_all(el.children),
        NodeView::Text(_) => 1,
        NodeView::Widget(_) => 0,
    }
}

/// How many handles drawing all of `nodes` takes.
pub open spec fn handle_need_all(nodes: Seq<NodeView>) -> nat
    decreases nodes,
{
    if nodes.len() == 0 {
        0
    } else {
        handle_need_all(nodes.drop_last()) + handle_need(nodes.last())
    }
}

/// The patches that set `attrs` on `element`, in order.
pub open spec fn attribute_patches(element: Handle, attrs: Seq<(Seq<char>, Seq<char>)>) -> Seq<PatchView> {
    Seq::new(
        attrs.len(),
        |i: int| PatchView::SetAttribute { element, name: attrs[i].0, value: attrs[i].1 },
    )
}

/// Drawing the text `text` when `next` is the next free handle.
pub open spec fn drawn_text(text: TextView, next: int) -> Step {
    Step {
        node: NodeView::Text(TextView { val: text.val, handle: Some(next as Handle) }),
        patches: seq![PatchView::CreateText { handle: next as Handle, data: text.val }],
        next: next + 1,
    }
}

/// Drawing `node` when `next` is the next free handle. An element takes the
/// first handle, sets its attributes, then draws and appends its children
/// one after the other.
pub open spec fn drawn_node(node: NodeView, next: int) -> Step
    decreases node,
{
    match node {
        NodeView::Element(el) => drawn_element(el, next),
        NodeView::Text(text) => drawn_text(text, next),
        NodeView::Widget(_) => Step { node, patches: Seq::empty(), next },
    }
}

/// Drawing the element `el` when `next` is the next free handle.
pub open spec fn drawn_element(el: ElementView, next: int) -> Step
    decreases el,
{
    let handle = next as Handle;
    let children = drawn_children(handle, el.children, next + 1);
    Step {
        node: NodeView::Element(
            ElementView {
                tag: el.tag,
                attrs: el.attrs,
                children: children.nodes,
                handle: Some(handle),
                listeners: el.listeners,
            },
        ),
        patches: seq![PatchView::CreateElement { handle, tag: el.tag }] + attribute_patches(handle, el.attrs)
            + children.patches,
        next: children.next,
    }
}

/// Drawing `children` one after the other and appending each to `parent`.
pub open spec fn drawn_children(parent: Handle, children: Seq<NodeView>, next: int) -> Steps
    decreases children,
{
    if children.len() == 0 {
        Steps { nodes: Seq::empty(), patches: Seq::empty(), next }
    } else {
        let before = drawn_children(parent, children.drop_last(), next);
        let last = drawn_node(children.last(), before.next);
        Steps {
            nodes: before.nodes.push(last.node),
            patches: before.patches + last.patches + seq![
                PatchView::AppendChild { parent, child: last.node.handle().unwrap() },
            ],
            next: last.next,
        }
    }
}

/// Drawing `nodes` one after the other, without appending them anywhere.
pub open spec fn drawn_all(nodes: Seq<NodeView>, next: int) -> Steps
    decreases nodes,
{
    if nodes.len() == 0 {
        Steps { nodes: Seq::empty(), patches: Seq::empty(), next }
    } else {
        let before = drawn_all(nodes.drop_last(), next);
        let last = drawn_node(nodes.last(), before.next);
        Steps { nodes: before.nodes.push(last.node), patches: before.patches + last.patches, next: last.next }
    }
}

/// The handles of `nodes`, in order.
pub open spec fn handles_of(nodes: Seq<NodeView>) -> Seq<Handle> {
    Seq::new(nodes.len(), |i: int| nodes[i].handle().unwrap())
}

/// Drawing a list without appending takes exactly the handles that
/// `handle_need_all` counts, and keeps the list's length.
pub proof fn lemma_drawn_all_next(nodes: Seq<NodeView>, next: int)
    ensures
        drawn_all(nodes, next).next == next + handle_need_all(nodes),
        drawn_all(nodes, next).nodes.len() == nodes.len(),
    decreases nodes,
{
    if nodes.len() > 0 {
        lemma_drawn_all_next(nodes.drop_last(), next);
        lemma_drawn_next(nodes.last(), drawn_all(nodes.drop_last(), next).next);
    }
}

/// Drawing takes exactly the handles that `handle_need` counts.
pub proof fn lemma_drawn_next(node: NodeView, next: int)
    ensures
        drawn_node(node, next).next == next + handle_need(node),
    decreases node,
{
    match node {
        NodeView::Element(el) => {
            lemma_drawn_children_next(next as Handle, el.children, next + 1);
        },
        _ => {},
    }
}

/// Drawing a list takes exactly the handles that `handle_need_all` counts,
/// and keeps the list's length.
pub proof fn lemma_drawn_children_next(parent: Handle, children: Seq<NodeView>, next: int)
    ensures
        drawn_children(parent, children, next).next == next + handle_need_all(children),
        drawn_children(parent, children, next).nodes.len() == children.len(),
    decreases children,
{
    if children.len() > 0 {
        lemma_drawn_children_next(parent, children.drop_last(), next);
        lemma_drawn_next(children.last(), drawn_children(parent, children.drop_last(), next).next);
    }
}

/// Draws `node`: every element and text in it gets a surface object and
/// remembers its handle.
pub fn node(surface: &mut Surface, node: &mut Node)
    requires
        old(surface)@.has_room(handle_need(old(node)@)),
    ensures
        final(node)@ == drawn_node(old(node)@, old(surface)@.next).node,
        final(surface)@ == old(surface)@.advance(
            drawn_node(old(node)@, old(surface)@.next).patches,
            drawn_node(old(node)@, old(surface)@.next).next,
        ),
    decreases old(node)@, 0nat,
{
    match node {
        Node::Element(el) => element(surface, el),
        Node::Text(txt) => text(surface, txt),
        Node::Widget(_) => {
            assert(surface@.pending =~= old(surface)@.pending + Seq::<PatchView>::empty());
        },
    }
}

/// Draws `text` as a text object of the surface.
pub fn text(surface: &mut Surface, text: &mut Text)
    requires
        old(surface)@.has_room(1),
    ensures
        NodeView::Text(final(text)@) == drawn_text(old(text)@, old(surface)@.next).node,
        final(surface)@ == old(surface)@.advance(
            drawn_text(old(text)@, old(surface)@.next).patches,
            drawn_text(old(text)@, old(surface)@.next).next,
        ),
{
    proof {
        surface.lemma_next_in_range();
    }
    let dom_text_node = surface.allocate();
    surface.record(Patch::CreateText { handle: dom_text_node, data: text.val.clone() });
    text.dom_text_node = Some(dom_text_node);
    assert(surface@.pending =~= old(surface)@.pending + drawn_text(old(text)@, old(surface)@.next).patches);
}

/// Draws `element` as a container of the surface, with its attributes set
/// and its children drawn and appended in order.
pub fn element(surface: &mut Surface, element: &mut Element)
    requires
        old(surface)@.has_room(handle_need(NodeView::Element(old(element)@))),
    ensures
        NodeView::Element(final(element)@) == drawn_element(old(element)@, old(surface)@.next).node,
        final(surface)@ == old(surface)@.advance(
            drawn_element(old(element)@, old(surface)@.next).patches,
            drawn_element(old(element)@, old(surface)@.next).next,
        ),
    decreases old(element)@, 0nat,
{
    let dom_element = create_dom_element(surface, &element.tag, &element.attrs, &mut element.children);
    element.dom_element = Some(dom_element);
}

/// Creates a container with the tag `name`, sets `attrs` on it, and draws
/// and appends `children`.
fn create_dom_element(
    surface: &mut Surface,
    name: &String,
    attrs: &Vec<(String, String)>,
    children: &mut Vec<Node>,
) -> (dom_element: Handle)
    requires
        old(surface)@.has_room(1 + handle_need_all(nodes_view(old(children)@))),
    ensures
        dom_element == old(surface)@.next,
        nodes_view(final(children)@) == drawn_children(
            dom_element,
            nodes_view(old(children)@),
            old(surface)@.next + 1,
        ).nodes,
        final(surface)@ == old(surface)@.advance(
            seq![PatchView::CreateElement { handle: dom_element, tag: name@ }] + attribute_patches(
                dom_element,
                attrs_view(attrs@),
            ) + drawn_children(dom_element, nodes_view(old(children)@), old(surface)@.next + 1).patches,
            drawn_children(dom_element, nodes_view(old(children)@), old(surface)@.next + 1).next,
        ),
    decreases nodes_view(old(children)@), 2nat,
{
    proof {
        surface.lemma_next_in_range();
    }
    let dom_element = surface.allocate();
    surface.record(Patch::CreateElement { handle: dom_element, tag: name.clone() });
    set_attributes(surface, dom_element, attrs);
    add_children(surface, dom_element, children);
    assert(surface@.pending =~= old(surface)@.pending + (seq![
        PatchView::CreateElement { handle: dom_element, tag: name@ },
    ] + attribute_patches(dom_element, attrs_view(attrs@)) + drawn_children(
        dom_element,
        nodes_view(old(children)@),
        old(surface)@.next + 1,
    ).patches));
    dom_element
}

/// Sets `attrs` on `dom_element`, in order.
fn set_attributes(surface: &mut Surface, dom_element: Handle, attrs: &Vec<(String, String)>)
    ensures
        final(surface)@ == old(surface)@.record(attribute_patches(dom_element, attrs_view(attrs@))),
{
    let mut i: usize = 0;
    while i < attrs.len()
        invariant
            i <= attrs.len(),
            surface@ == old(surface)@.record(attribute_patches(dom_element, attrs_view(attrs@).take(i as int))),
        decreases attrs.len() - i,
    {
        surface.record(
            Patch::SetAttribute { element: dom_element, name: attrs[i].0.clone(), value: attrs[i].1.clone() },
        );
        assert(surface@.pending =~= old(surface)@.pending + attribute_patches(
            dom_element,
            attrs_view(attrs@).take(i + 1),
        ));
        i += 1;
    }
    assert(attrs_view(attrs@).take(attrs.len() as int) =~= attrs_view(attrs@));
}

/// Draws each of `children` and appends it to `dom_element`, in order.
fn add_children(surface: &mut Surface, dom_element: Handle, children: &mut Vec<Node>)
    requires
        old(surface)@.has_room(handle_need_all(nodes_view(old(children)@))),
    ensures
        nodes_view(final(children)@) == drawn_children(
            dom_element,
            nodes_view(old(children)@),
            old(surface)@.next,
        ).nodes,
        final(surface)@ == old(surface)@.advance(
            drawn_children(dom_element, nodes_view(old(children)@), old(surface)@.next).patches,
            drawn_children(dom_element, nodes_view(old(children)@), old(surface)@.next).next,
        ),
    decreases nodes_view(old(children)@), 1nat,
{
    let ghost before = nodes_view(children@);
    let ghost start = surface@.next;
    let mut i: usize = 0;
    while i < children.len()
        invariant
            i <= children.len(),
            children.len() == before.len(),
            before == nodes_view(old(children)@),
            start == old(surface)@.next,
            old(surface)@.has_room(handle_need_all(before)),
            forall|j: int| i <= j < children.len() ==> #[trigger] children[j]@ == before[j],
            nodes_view(children@).take(i as int) == drawn_children(dom_element, before.take(i as int), start).nodes,
            surface@ == old(surface)@.advance(
                drawn_children(dom_element, before.take(i as int), start).patches,
                drawn_children(dom_element, before.take(i as int), start).next,
            ),
        decreases children.len() - i,
    {
        let ghost done = drawn_children(dom_element, before.take(i as int), start);
        let ghost seen = nodes_view(children@);
        proof {
            assert(before.take(i + 1).drop_last() =~= before.take(i as int));
            assert(before.take(i + 1).last() == before[i as int]);
            lemma_drawn_children_next(dom_element, before.take(i as int), start);
            lemma_handle_need_all_take(before, i + 1);
        }
        node(surface, &mut children[i]);
        let child = children[i].dom_node();
        proof {
            lemma_drawn_handle(before[i as int], done.next);
        }
        match child {
            Some(child) => {
                surface.record(Patch::AppendChild { parent: dom_element, child });
            },
            None => vstd::pervasive::unreached(),
        }
        proof {
            let next = drawn_children(dom_element, before.take(i + 1), start);
            assert(surface@.pending =~= old(surface)@.pending + next.patches);
            assert(nodes_view(children@).take(i + 1) =~= next.nodes) by {
                assert forall|j: int| 0 <= j < i implies nodes_view(children@)[j] == seen.take(i as int)[j] by {}
            }
        }
        i += 1;
    }
    assert(before.take(children.len() as int) =~= before);
    assert(nodes_view(children@).take(children.len() as int) =~= nodes_view(children@));
}

/// A drawn node has a handle.
pub proof fn lemma_drawn_handle(node: NodeView, next: int)
    ensures
        drawn_node(node, next).node.handle() is Some,
{
}

/// A prefix of a list needs no more handles than the list.
pub proof fn lemma_handle_need_all_take(nodes: Seq<NodeView>, n: int)
    requires
        0 <= n <= nodes.len(),
    ensures
        handle_need_all(nodes.take(n)) <= handle_need_all(nodes),
    decreases nodes.len(),
{
    if n < nodes.len() {
        assert(nodes.drop_last().take(n) =~= nodes.take(n));
        lemma_handle_need_all_take(nodes.drop_last(), n);
    } else {
        assert(nodes.take(n) =~= nodes);
    }
}

} // verus!
