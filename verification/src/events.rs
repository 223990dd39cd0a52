//! Listeners: what a node wants to hear of, and the wiring of a drawn tree.

use crate::nodes::element::{listeners_view, ElementView};
use crate::nodes::node::{nodes_view, Node, NodeView, Step, Steps};
use crate::surface::{Handle, Patch, PatchView, Surface};
use vstd::prelude::*;

verus! {

/// Names a message-producing callback that the host keeps.
pub type CallbackId = u64;

/// The kind of callback behind a listener. Two kinds are the same listener
/// only if they are the same variant over the same callback.
#[derive(Clone, Copy, Debug, PartialEq, Eq, Structural)]
pub enum ListenerKind {
    /// Takes nothing.
    Factory(CallbackId),
    /// Takes the native event.
    Evented(CallbackId),
    /// Takes the current value of the event's target.
    Valued(CallbackId),
}

/// A listener of an element: the callback kind, and the native callback
/// bound for it once it is attached.
#[derive(Clone, Copy, Debug, PartialEq, Eq)]
pub struct Listener {
    pub kind: ListenerKind,
    pub callback: Option<Handle>,
}

impl Listener {
    /// This listener once the native callback `callback` is bound for it.
    pub open spec fn bound(self, callback: Handle) -> Listener {
        Listener { kind: self.kind, callback: Some(callback) }
    }

    /// The patch that binds the native callback `callback` for this
    /// listener, under `event` on `element`, on behalf of `widget`.
    pub open spec fn binding(self, widget: Seq<char>, element: Handle, event: Seq<char>, callback: Handle) -> PatchView {
        PatchView::AddListener { element, event, widget, kind: self.kind, callback }
    }
}

/// Whether `node` can be wired: every element of it, down through elements,
/// has been drawn.
pub open spec fn wirable(node: NodeView) -> bool
    decreases node,
{
    match node {
        NodeView::Element(el) => {
            &&& el.handle is Some
            &&& forall|i: int| 0 <= i < el.children.len() ==> wirable(#[trigger] el.children[i])
        },
        _ => true,
    }
}

/// How many listeners the elements of `node` hold, down through elements.
pub open spec fn listener_count(node: NodeView) -> nat
    decreases node,
{
    match node {
        NodeView::Element(el) => el.listeners.len() + listener_count_all(el.children),
        _ => 0,
    }
}

/// How many listeners the elements of `nodes` hold.
pub open spec fn listener_count_all(nodes: Seq<NodeView>) -> nat
    decreases nodes,
{
    if nodes.len() == 0 {
        0
    } else {
        listener_count_all(nodes.drop_last()) + listener_count(nodes.last())
    }
}

/// `listeners` after a native callback is bound for each, the first under
/// the handle `next` and each further one under the handle after it.
pub open spec fn bound_listeners(listeners: Seq<(Seq<char>, Listener)>, next: int) -> Seq<(Seq<char>, Listener)> {
    Seq::new(listeners.len(), |i: int| (listeners[i].0, listeners[i].1.bound((next + i) as Handle)))
}

/// The patches that bind a native callback for each of `listeners` on
/// `element`, in order.
pub open spec fn binding_patches(
    widget: Seq<char>,
    element: Handle,
    listeners: Seq<(Seq<char>, Listener)>,
    next: int,
) -> Seq<PatchView> {
    Seq::new(
        listeners.len(),
        |i: int| listeners[i].1.binding(widget, element, listeners[i].0, (next + i) as Handle),
    )
}

/// Wiring `node` for `widget` when `next` is the next free handle: an
/// element binds its own listeners in order, then wires its children in
/// order. Texts and widget references are left as they are.
pub open spec fn listened_node(widget: Seq<char>, node: NodeView, next: int) -> Step
    decreases node,
{
    match node {
        NodeView::Element(el) => {
            let children = listened_children(widget, el.children, next + el.listeners.len());
            Step {
                node: NodeView::Element(
                    ElementView {
                        tag: el.tag,
                        attrs: el.attrs,
                        children: children.nodes,
                        handle: el.handle,
                        listeners: bound_listeners(el.listeners, next),
                    },
                ),
                patches: binding_patches(widget, el.handle.unwrap(), el.listeners, next) + children.patches,
                next: children.next,
            }
        },
        _ => Step { node, patches: Seq::empty(), next },
    }
}

/// Wiring `children` one after the other.
pub open spec fn listened_children(widget: Seq<char>, children: Seq<NodeView>, next: int) -> Steps
    decreases children,
{
    if children.len() == 0 {
        Steps { nodes: Seq::empty(), patches: Seq::empty(), next }
    } else {
        let before = listened_children(widget, children.drop_last(), next);
        let last = listened_node(widget, children.last(), before.next);
        Steps { nodes: before.nodes.push(last.node), patches: before.patches + last.patches, next: last.next }
    }
}

/// Wiring takes one handle for each listener.
pub proof fn lemma_listened_next(widget: Seq<char>, node: NodeView, next: int)
    ensures
        listened_node(widget, node, next).next == next + listener_count(node),
    decreases node,
{
    match node {
        NodeView::Element(el) => {
            lemma_listened_children_next(widget, el.children, next + el.listeners.len());
        },
        _ => {},
    }
}

/// Wiring a list takes one handle for each listener in it, and keeps the
/// list's length.
pub proof fn lemma_listened_children_next(widget: Seq<char>, children: Seq<NodeView>, next: int)
    ensures
        listened_children(widget, children, next).next == next + listener_count_all(children),
        listened_children(widget, children, next).nodes.len() == children.len(),
    decreases children,
{
    if children.len() > 0 {
        lemma_listened_children_next(widget, children.drop_last(), next);
        lemma_listened_next(widget, children.last(), listened_children(widget, children.drop_last(), next).next);
    }
}

/// A prefix of a list holds no more listeners than the list.
pub proof fn lemma_listener_count_all_take(nodes: Seq<NodeView>, n: int)
    requires
        0 <= n <= nodes.len(),
    ensures
        listener_count_all(nodes.take(n)) <= listener_count_all(nodes),
    decreases nodes.len(),
{
    if n < nodes.len() {
        assert(nodes.drop_last().take(n) =~= nodes.take(n));
        lemma_listener_count_all_take(nodes.drop_last(), n);
    } else {
        assert(nodes.take(n) =~= nodes);
    }
}

/// Wires the drawn tree `node` for the widget `wname`: a native callback is
/// bound for every listener of every element, down through elements. Texts
/// are not walked, and a nested widget has wired its own tree.
pub fn listen(surface: &mut Surface, wname: &str, node: &mut Node)
    requires
        wirable(old(node)@),
        old(surface)@.has_room(listener_count(old(node)@)),
    ensures
        final(node)@ == listened_node(wname@, old(node)@, old(surface)@.next).node,
        final(surface)@ == old(surface)@.advance(
            listened_node(wname@, old(node)@, old(surface)@.next).patches,
            listened_node(wname@, old(node)@, old(surface)@.next).next,
        ),
    decreases old(node)@,
{
    match node {
        Node::Element(el) => {
            let ghost before = el@;
            let ghost start = surface@.next;
            match el.dom_element {
                Some(dom_element) => {
                    proof {
                        surface.lemma_next_in_range();
                    }
                    let mut i: usize = 0;
                    while i < el.listeners.len()
                        invariant
                            i <= el.listeners.len(),
                            el.listeners.len() == before.listeners.len(),
                            el.tag == old(node)->Element_0.tag,
                            el.attrs == old(node)->Element_0.attrs,
                            el.children == old(node)->Element_0.children,
                            el.dom_element == Some(dom_element),
                            before == old(node)->Element_0@,
                            start == old(surface)@.next,
                            start + before.listeners.len() <= u64::MAX,
                            forall|j: int|
                                i <= j < el.listeners.len() ==> #[trigger] listeners_view(el.listeners@)[j]
                                    == before.listeners[j],
                            listeners_view(el.listeners@).take(i as int) == bound_listeners(
                                before.listeners,
                                start,
                            ).take(i as int),
                            surface@ == old(surface)@.advance(
                                binding_patches(wname@, dom_element, before.listeners, start).take(i as int),
                                start + i,
                            ),
                        decreases el.listeners.len() - i,
                    {
                        let ghost seen = listeners_view(el.listeners@);
                        assert(seen[i as int] == before.listeners[i as int]);
                        let entry = &mut el.listeners[i];
                        add_event_listener(surface, wname, &entry.0, &mut entry.1, dom_element);
                        proof {
                            assert(surface@.pending =~= old(surface)@.pending + binding_patches(
                                wname@,
                                dom_element,
                                before.listeners,
                                start,
                            ).take(i + 1));
                            assert forall|j: int| i < j < el.listeners.len() implies #[trigger] listeners_view(
                                el.listeners@,
                            )[j] == before.listeners[j] by {
                                assert(listeners_view(el.listeners@)[j] == seen[j]);
                            }
                            assert(listeners_view(el.listeners@).take(i + 1) =~= bound_listeners(
                                before.listeners,
                                start,
                            ).take(i + 1)) by {
                                assert forall|j: int| 0 <= j < i implies listeners_view(el.listeners@)[j]
                                    == seen.take(i as int)[j] by {}
                            }
                        }
                        i += 1;
                    }
                    proof {
                        assert(listeners_view(el.listeners@).take(el.listeners.len() as int) =~= listeners_view(
                            el.listeners@,
                        ));
                        let all = bound_listeners(before.listeners, start);
                        assert(all.take(el.listeners.len() as int) =~= all);
                        let patches = binding_patches(wname@, dom_element, before.listeners, start);
                        assert(patches.take(el.listeners.len() as int) =~= patches);
                    }
                    listen_children(surface, wname, &mut el.children);
                    proof {
                        let step = listened_node(wname@, old(node)@, start);
                        assert(surface@.pending =~= old(surface)@.pending + step.patches);
                    }
                },
                None => vstd::pervasive::unreached(),
            }
        },
        Node::Text(_) | Node::Widget(_) => {
            assert(surface@.pending =~= old(surface)@.pending + Seq::<PatchView>::empty());
        },
    }
}

/// Binds a native callback for `listener` under the event `name` on
/// `dom_element`. When the callback fires, the message that the listener's
/// kind produces goes to the widget `wname`. The listener remembers the
/// callback's handle.
pub fn add_event_listener(
    surface: &mut Surface,
    wname: &str,
    name: &str,
    listener: &mut Listener,
    dom_element: Handle,
)
    requires
        old(surface)@.has_room(1),
    ensures
        *final(listener) == old(listener).bound(old(surface)@.next as Handle),
        final(surface)@ == old(surface)@.advance(
            seq![old(listener).binding(wname@, dom_element, name@, old(surface)@.next as Handle)],
            old(surface)@.next + 1,
        ),
{
    proof {
        surface.lemma_next_in_range();
    }
    let callback = surface.allocate();
    surface.record(
        Patch::AddListener {
            element: dom_element,
            event: name.to_owned(),
            widget: wname.to_owned(),
            kind: listener.kind,
            callback,
        },
    );
    listener.callback = Some(callback);
    assert(surface@.pending =~= old(surface)@.pending + seq![
        old(listener).binding(wname@, dom_element, name@, callback),
    ]);
}

/// Wires each of `children` for the widget `wname`, in order.
fn listen_children(surface: &mut Surface, wname: &str, children: &mut Vec<Node>)
    requires
        forall|i: int| 0 <= i < old(children).len() ==> wirable(#[trigger] nodes_view(old(children)@)[i]),
        old(surface)@.has_room(listener_count_all(nodes_view(old(children)@))),
    ensures
        nodes_view(final(children)@) == listened_children(
            wname@,
            nodes_view(old(children)@),
            old(surface)@.next,
        ).nodes,
        final(surface)@ == old(surface)@.advance(
            listened_children(wname@, nodes_view(old(children)@), old(surface)@.next).patches,
            listened_children(wname@, nodes_view(old(children)@), old(surface)@.next).next,
        ),
    decreases nodes_view(old(children)@),
{
    let ghost before = nodes_view(children@);
    let ghost start = surface@.next;
    let mut i: usize = 0;
    while i < children.len()
        invariant
            i <= children.len(),
            children.len() == before.len(),
            before == nodes_view(old(children)@),
            start == old(surface)@.next,
            old(surface)@.has_room(listener_count_all(before)),
            forall|j: int| 0 <= j < before.len() ==> wirable(#[trigger] before[j]),
            forall|j: int| i <= j < children.len() ==> #[trigger] children[j]@ == before[j],
            nodes_view(children@).take(i as int) == listened_children(wname@, before.take(i as int), start).nodes,
            surface@ == old(surface)@.advance(
                listened_children(wname@, before.take(i as int), start).patches,
                listened_children(wname@, before.take(i as int), start).next,
            ),
        decreases children.len() - i,
    {
        let ghost seen = nodes_view(children@);
        proof {
            assert(before.take(i + 1).drop_last() =~= before.take(i as int));
            assert(before.take(i + 1).last() == before[i as int]);
            lemma_listened_children_next(wname@, before.take(i as int), start);
            lemma_listener_count_all_take(before, i + 1);
        }
        listen(surface, wname, &mut children[i]);
        proof {
            let next = listened_children(wname@, before.take(i + 1), start);
            assert(surface@.pending =~= old(surface)@.pending + next.patches);
            assert(nodes_view(children@).take(i + 1) =~= next.nodes) by {
                assert forall|j: int| 0 <= j < i implies nodes_view(children@)[j] == seen.take(i as int)[j] by {}
            }
        }
        i += 1;
    }
    assert(before.take(children.len() as int) =~= before);
    assert(nodes_view(children@).take(children.len() as int) =~= nodes_view(children@));
}

} // verus!
