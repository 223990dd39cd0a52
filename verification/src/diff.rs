//! Reconciling: a new version of a tree is compared with the drawn previous
//! one, the surface is patched where they differ, and the new tree takes
//! over the handles of what it keeps.

use crate::draw;
use crate::draw::drawn_node;
use crate::events::{Listener, ListenerKind};
use crate::keyed::{collect, find, keys, lemma_position, owned_keys, position};
use crate::nodes::element::{listeners_view, Element, ElementView};
use crate::nodes::node::{nodes_view, Node, NodeView, Step, Steps};
use crate::nodes::text::{Text, TextView};
use crate::nodes::widget::{Widget, WidgetView};
use crate::patch;
use crate::patch::{appends, removals};
use crate::surface::{Handle, PatchView, Surface};
use vstd::prelude::*;

verus! {

/// Reconciling two widget references: the surface changes only if they name
/// different widgets, and then the root of the new one replaces the root of
/// the old one.
pub open spec fn diffed_widget(from: WidgetView, to: WidgetView) -> Seq<PatchView> {
    if from.name != to.name {
        seq![PatchView::ReplaceNode { node: from.handle, by: to.handle }]
    } else {
        Seq::empty()
    }
}

/// Reconciling two texts when `next` is the next free handle: the text
/// object of the old one is kept, and its data is replaced if it differs.
pub open spec fn diffed_text(from: TextView, to: TextView, next: int) -> Step {
    Step {
        node: NodeView::Text(TextView { val: to.val, handle: from.handle }),
        patches: if from.val != to.val {
            seq![PatchView::SetTextData { text: from.handle.unwrap(), data: to.val }]
        } else {
            Seq::empty()
        },
        next,
    }
}

/// What reconciling does about one attribute of the old element: it is set
/// anew if the new element gives it another value, removed if the new
/// element lacks it, and left alone otherwise.
pub open spec fn stale_attribute(
    element: Handle,
    attr: (Seq<char>, Seq<char>),
    to: Seq<(Seq<char>, Seq<char>)>,
) -> Option<PatchView> {
    match position(to, attr.0) {
        Some(i) => if to[i].1 != attr.1 {
            Some(PatchView::SetAttribute { element, name: attr.0, value: to[i].1 })
        } else {
            None
        },
        None => Some(PatchView::RemoveAttribute { element, name: attr.0 }),
    }
}

/// What reconciling does about one attribute of the new element: it is set
/// if the old element lacks it.
pub open spec fn fresh_attribute(
    element: Handle,
    attr: (Seq<char>, Seq<char>),
    from: Seq<(Seq<char>, Seq<char>)>,
) -> Option<PatchView> {
    if position(from, attr.0) is None {
        Some(PatchView::SetAttribute { element, name: attr.0, value: attr.1 })
    } else {
        None
    }
}

/// The patches for the attributes of the old element, in their order.
pub open spec fn stale_attributes(
    element: Handle,
    from: Seq<(Seq<char>, Seq<char>)>,
    to: Seq<(Seq<char>, Seq<char>)>,
) -> Seq<PatchView> {
    collect(Seq::new(from.len(), |i: int| stale_attribute(element, from[i], to)))
}

/// The patches for the attributes of the new element, in their order.
pub open spec fn fresh_attributes(
    element: Handle,
    from: Seq<(Seq<char>, Seq<char>)>,
    to: Seq<(Seq<char>, Seq<char>)>,
) -> Seq<PatchView> {
    collect(Seq::new(to.len(), |i: int| fresh_attribute(element, to[i], from)))
}

/// The patches that take the attributes `from` of `element` to `to`: first
/// those for the old attributes, then those for the new ones.
pub open spec fn diffed_attributes(
    element: Handle,
    from: Seq<(Seq<char>, Seq<char>)>,
    to: Seq<(Seq<char>, Seq<char>)>,
) -> Seq<PatchView> {
    stale_attributes(element, from, to) + fresh_attributes(element, from, to)
}

/// What reconciling the listeners of an element leaves behind.
pub struct Rebound {
    /// The listeners of the new element as they stand afterwards.
    pub listeners: Seq<(Seq<char>, Listener)>,
    /// The patches recorded, in order.
    pub patches: Seq<PatchView>,
    /// The next handle that the surface gives out afterwards.
    pub next: int,
}

/// Whether every listener of `from` that `to` lacks can be unbound: its
/// native callback is known.
pub open spec fn detachable(from: Seq<(Seq<char>, Listener)>, to: Seq<(Seq<char>, Listener)>) -> bool {
    forall|i: int|
        0 <= i < from.len() && position(to, (#[trigger] from[i]).0) is None ==> from[i].1.callback is Some
}

/// Going through the listeners `from` of the old element, in order: where
/// the new element has a listener of another kind for the same event, a
/// native callback is bound for the new one; where it has none, the old
/// one is unbound; where it has the same, nothing happens.
pub open spec fn stale_listeners(
    widget: Seq<char>,
    element: Handle,
    from: Seq<(Seq<char>, Listener)>,
    to: Seq<(Seq<char>, Listener)>,
    next: int,
) -> Rebound
    decreases from.len(),
{
    if from.len() == 0 {
        Rebound { listeners: to, patches: Seq::empty(), next }
    } else {
        let before = stale_listeners(widget, element, from.drop_last(), to, next);
        let event = from.last().0;
        match position(to, event) {
            Some(j) => if from.last().1.kind != to[j].1.kind {
                Rebound {
                    listeners: before.listeners.update(
                        j,
                        (to[j].0, before.listeners[j].1.bound(before.next as Handle)),
                    ),
                    patches: before.patches.push(
                        before.listeners[j].1.binding(widget, element, event, before.next as Handle),
                    ),
                    next: before.next + 1,
                }
            } else {
                before
            },
            None => Rebound {
                listeners: before.listeners,
                patches: before.patches.push(
                    PatchView::RemoveListener { element, event, callback: from.last().1.callback.unwrap() },
                ),
                next: before.next,
            },
        }
    }
}

/// Going through the listeners `to` of the new element, in order: a native
/// callback is bound for each whose event the old element does not listen
/// to.
pub open spec fn fresh_listeners(
    widget: Seq<char>,
    element: Handle,
    from: Seq<(Seq<char>, Listener)>,
    to: Seq<(Seq<char>, Listener)>,
    next: int,
) -> Rebound
    decreases to.len(),
{
    if to.len() == 0 {
        Rebound { listeners: Seq::empty(), patches: Seq::empty(), next }
    } else {
        let before = fresh_listeners(widget, element, from, to.drop_last(), next);
        let event = to.last().0;
        if position(from, event) is None {
            Rebound {
                listeners: before.listeners.push((event, to.last().1.bound(before.next as Handle))),
                patches: before.patches.push(to.last().1.binding(widget, element, event, before.next as Handle)),
                next: before.next + 1,
            }
        } else {
            Rebound { listeners: before.listeners.push(to.last()), patches: before.patches, next: before.next }
        }
    }
}

/// Reconciling the listeners `to` of the new element against the listeners
/// `from` of the old one, on `element`, when `next` is the next free handle:
/// first the old listeners are gone through, then the new ones.
pub open spec fn diffed_listeners(
    widget: Seq<char>,
    element: Handle,
    from: Seq<(Seq<char>, Listener)>,
    to: Seq<(Seq<char>, Listener)>,
    next: int,
) -> Rebound {
    let stale = stale_listeners(widget, element, from, to, next);
    let fresh = fresh_listeners(widget, element, from, stale.listeners, stale.next);
    Rebound { listeners: fresh.listeners, patches: stale.patches + fresh.patches, next: fresh.next }
}

/// Going through the old listeners keeps the events and kinds of the new
/// ones, and takes at most one handle for each old listener.
pub proof fn lemma_stale_listeners(
    widget: Seq<char>,
    element: Handle,
    from: Seq<(Seq<char>, Listener)>,
    to: Seq<(Seq<char>, Listener)>,
    next: int,
)
    ensures
        ({
            let stale = stale_listeners(widget, element, from, to, next);
            &&& stale.listeners.len() == to.len()
            &&& forall|j: int|
                0 <= j < to.len() ==> (#[trigger] stale.listeners[j]).0 == to[j].0 && stale.listeners[j].1.kind
                    == to[j].1.kind
            &&& next <= stale.next <= next + from.len()
        }),
    decreases from.len(),
{
    if from.len() > 0 {
        lemma_stale_listeners(widget, element, from.drop_last(), to, next);
        lemma_position(to, from.last().0);
    }
}

/// Going through a prefix of the old listeners takes no more handles than
/// going through all of them.
pub proof fn lemma_stale_listeners_take(
    widget: Seq<char>,
    element: Handle,
    from: Seq<(Seq<char>, Listener)>,
    to: Seq<(Seq<char>, Listener)>,
    next: int,
    n: int,
)
    requires
        0 <= n <= from.len(),
    ensures
        stale_listeners(widget, element, from.take(n), to, next).next <= stale_listeners(
            widget,
            element,
            from,
            to,
            next,
        ).next,
    decreases from.len(),
{
    if n < from.len() {
        assert(from.drop_last().take(n) =~= from.take(n));
        lemma_stale_listeners_take(widget, element, from.drop_last(), to, next, n);
    } else {
        assert(from.take(n) =~= from);
    }
}

/// Going through the new listeners keeps their events and kinds, and takes
/// at most one handle for each.
pub proof fn lemma_fresh_listeners(
    widget: Seq<char>,
    element: Handle,
    from: Seq<(Seq<char>, Listener)>,
    to: Seq<(Seq<char>, Listener)>,
    next: int,
)
    ensures
        ({
            let fresh = fresh_listeners(widget, element, from, to, next);
            &&& fresh.listeners.len() == to.len()
            &&& forall|j: int|
                0 <= j < to.len() ==> (#[trigger] fresh.listeners[j]).0 == to[j].0 && fresh.listeners[j].1.kind
                    == to[j].1.kind
            &&& next <= fresh.next <= next + to.len()
        }),
    decreases to.len(),
{
    if to.len() > 0 {
        lemma_fresh_listeners(widget, element, from, to.drop_last(), next);
    }
}

/// Going through a prefix of the new listeners takes no more handles than
/// going through all of them.
pub proof fn lemma_fresh_listeners_take(
    widget: Seq<char>,
    element: Handle,
    from: Seq<(Seq<char>, Listener)>,
    to: Seq<(Seq<char>, Listener)>,
    next: int,
    n: int,
)
    requires
        0 <= n <= to.len(),
    ensures
        fresh_listeners(widget, element, from, to.take(n), next).next <= fresh_listeners(
            widget,
            element,
            from,
            to,
            next,
        ).next,
    decreases to.len(),
{
    if n < to.len() {
        assert(to.drop_last().take(n) =~= to.take(n));
        lemma_fresh_listeners_take(widget, element, from, to.drop_last(), next, n);
    } else {
        assert(to.take(n) =~= to);
    }
}

/// Whether `to` can be reconciled against `from`: wherever reconciling asks
/// the old tree for a handle, the old tree has it. That is the handle of
/// each old node that is compared with a new one, and the native callback
/// of each old listener that the new element lacks.
pub open spec fn reconcilable(from: NodeView, to: NodeView) -> bool
    decreases to,
{
    match (from, to) {
        (NodeView::Element(f), NodeView::Element(t)) => {
            &&& f.handle is Some
            &&& f.tag == t.tag ==> {
                &&& detachable(f.listeners, t.listeners)
                &&& forall|i: int|
                    #![trigger t.children[i]]
                    0 <= i < f.children.len() && 0 <= i < t.children.len() ==> reconcilable(
                        f.children[i],
                        t.children[i],
                    )
            }
        },
        (NodeView::Text(f), NodeView::Text(_)) => f.handle is Some,
        (NodeView::Widget(_), NodeView::Widget(_)) => true,
        _ => from.handle() is Some,
    }
}

/// Drawing `to` and putting it where the surface object `node` stands.
pub open spec fn replaced(node: Handle, to: NodeView, next: int) -> Step {
    let drawn = drawn_node(to, next);
    Step {
        node: drawn.node,
        patches: drawn.patches.push(PatchView::ReplaceNode { node, by: drawn.node.handle().unwrap() }),
        next: drawn.next,
    }
}

/// Reconciling `to` against the drawn `from` for `widget` when `next` is
/// the next free handle. Nodes of the same variant are compared; otherwise
/// `to` is drawn and replaces `from`.
pub open spec fn diffed_node(widget: Seq<char>, from: NodeView, to: NodeView, next: int) -> Step
    decreases to, 0nat,
{
    match (from, to) {
        (NodeView::Element(f), NodeView::Element(t)) => diffed_element(widget, f, t, next),
        (NodeView::Text(f), NodeView::Text(t)) => diffed_text(f, t, next),
        (NodeView::Widget(f), NodeView::Widget(t)) => Step { node: to, patches: diffed_widget(f, t), next },
        _ => replaced(from.handle().unwrap(), to, next),
    }
}

/// Reconciling two elements. With different tags the new one is drawn and
/// replaces the old one. With the same tag the new one takes over the
/// container, and the attributes, then the children, then the listeners are
/// reconciled.
pub open spec fn diffed_element(widget: Seq<char>, from: ElementView, to: ElementView, next: int) -> Step
    decreases to, 0nat,
{
    let handle = from.handle.unwrap();
    if from.tag != to.tag {
        replaced(handle, NodeView::Element(to), next)
    } else {
        let children = diffed_children(widget, handle, from.children, to.children, next);
        let rebound = diffed_listeners(widget, handle, from.listeners, to.listeners, children.next);
        Step {
            node: NodeView::Element(
                ElementView {
                    tag: to.tag,
                    attrs: to.attrs,
                    children: children.nodes,
                    handle: Some(handle),
                    listeners: rebound.listeners,
                },
            ),
            patches: diffed_attributes(handle, from.attrs, to.attrs) + children.patches + rebound.patches,
            next: rebound.next,
        }
    }
}

/// Reconciling the children `to` of a new element against the children
/// `from` of the old one, under the container `parent`. Children are
/// matched by position. Where the old list is at least as long, what it has
/// more is removed from the tail; otherwise what the new list has more is
/// drawn and appended, in order. Then the pairs at the same position are
/// reconciled, first pair first.
pub open spec fn diffed_children(
    widget: Seq<char>,
    parent: Handle,
    from: Seq<NodeView>,
    to: Seq<NodeView>,
    next: int,
) -> Steps
    decreases to, to.len() + 1,
{
    if from.len() >= to.len() {
        let pairs = diffed_pairs(widget, from, to, to.len(), next);
        Steps {
            nodes: pairs.nodes,
            patches: removals(parent, (from.len() - to.len()) as nat) + pairs.patches,
            next: pairs.next,
        }
    } else {
        let grown = draw::drawn_all(to.skip(from.len() as int), next);
        let pairs = diffed_pairs(widget, from, to, from.len(), grown.next);
        Steps {
            nodes: pairs.nodes + grown.nodes,
            patches: grown.patches + appends(parent, draw::handles_of(grown.nodes)) + pairs.patches,
            next: pairs.next,
        }
    }
}

/// Reconciling the first `n` children of `to` against the first `n` of
/// `from`, pair by pair.
pub open spec fn diffed_pairs(widget: Seq<char>, from: Seq<NodeView>, to: Seq<NodeView>, n: nat, next: int) -> Steps
    decreases to, n,
{
    if n == 0 || n > to.len() || n > from.len() {
        Steps { nodes: Seq::empty(), patches: Seq::empty(), next }
    } else {
        let before = diffed_pairs(widget, from, to, (n - 1) as nat, next);
        let last = diffed_node(widget, from[n - 1], to[n - 1], before.next);
        Steps { nodes: before.nodes.push(last.node), patches: before.patches + last.patches, next: last.next }
    }
}

/// Reconciling gives out handles and takes none back.
pub proof fn lemma_diffed_node_next(widget: Seq<char>, from: NodeView, to: NodeView, next: int)
    ensures
        next <= diffed_node(widget, from, to, next).next,
    decreases to, 0nat,
{
    match (from, to) {
        (NodeView::Element(f), NodeView::Element(t)) => {
            if f.tag != t.tag {
                draw::lemma_drawn_next(to, next);
            } else {
                let handle = f.handle.unwrap();
                lemma_diffed_children_next(widget, handle, f.children, t.children, next);
                let children = diffed_children(widget, handle, f.children, t.children, next);
                lemma_stale_listeners(widget, handle, f.listeners, t.listeners, children.next);
                let stale = stale_listeners(widget, handle, f.listeners, t.listeners, children.next);
                lemma_fresh_listeners(widget, handle, f.listeners, stale.listeners, stale.next);
            }
        },
        (NodeView::Text(_), NodeView::Text(_)) => {},
        (NodeView::Widget(_), NodeView::Widget(_)) => {},
        _ => {
            draw::lemma_drawn_next(to, next);
        },
    }
}

/// Reconciling the children of an element gives out handles and takes none
/// back, and hands back as many children as the new element has.
pub proof fn lemma_diffed_children_next(
    widget: Seq<char>,
    parent: Handle,
    from: Seq<NodeView>,
    to: Seq<NodeView>,
    next: int,
)
    ensures
        next <= diffed_children(widget, parent, from, to, next).next,
        diffed_children(widget, parent, from, to, next).nodes.len() == to.len(),
    decreases to, to.len() + 1,
{
    if from.len() >= to.len() {
        lemma_diffed_pairs_next(widget, from, to, to.len(), next);
    } else {
        draw::lemma_drawn_all_next(to.skip(from.len() as int), next);
        let grown = draw::drawn_all(to.skip(from.len() as int), next);
        lemma_diffed_pairs_next(widget, from, to, from.len(), grown.next);
    }
}

/// Reconciling pairs gives out handles and takes none back, and hands back
/// one node for each pair.
pub proof fn lemma_diffed_pairs_next(widget: Seq<char>, from: Seq<NodeView>, to: Seq<NodeView>, n: nat, next: int)
    requires
        n <= from.len(),
        n <= to.len(),
    ensures
        next <= diffed_pairs(widget, from, to, n, next).next,
        diffed_pairs(widget, from, to, n, next).nodes.len() == n,
    decreases to, n,
{
    if n > 0 {
        lemma_diffed_pairs_next(widget, from, to, (n - 1) as nat, next);
        let before = diffed_pairs(widget, from, to, (n - 1) as nat, next);
        lemma_diffed_node_next(widget, from[n - 1], to[n - 1], before.next);
    }
}

/// Reconciling fewer pairs takes no more handles.
pub proof fn lemma_diffed_pairs_fewer(
    widget: Seq<char>,
    from: Seq<NodeView>,
    to: Seq<NodeView>,
    m: nat,
    n: nat,
    next: int,
)
    requires
        m <= n <= from.len(),
        n <= to.len(),
    ensures
        diffed_pairs(widget, from, to, m, next).next <= diffed_pairs(widget, from, to, n, next).next,
    decreases n,
{
    if m < n {
        lemma_diffed_pairs_fewer(widget, from, to, m, (n - 1) as nat, next);
        let before = diffed_pairs(widget, from, to, (n - 1) as nat, next);
        lemma_diffed_node_next(widget, from[n - 1], to[n - 1], before.next);
    }
}

/// Reconciles the widget reference `to` against `from`.
pub fn diff_widget(surface: &mut Surface, from: &Widget, to: &Widget)
    ensures
        final(surface)@ == old(surface)@.record(diffed_widget(from@, to@)),
{
    if from.name != to.name {
        patch::replace_node(surface, from.dom_node, to.dom_node);
    } else {
        assert(surface@.pending =~= old(surface)@.pending + Seq::<PatchView>::empty());
    }
}

/// Reconciles the text `to` against the drawn text `from`: `to` takes over
/// the text object, whose data is replaced if the two read differently.
pub fn diff_text(surface: &mut Surface, from: &Text, to: &mut Text)
    requires
        from@.handle is Some,
    ensures
        NodeView::Text(final(to)@) == diffed_text(from@, old(to)@, old(surface)@.next).node,
        final(surface)@ == old(surface)@.record(diffed_text(from@, old(to)@, old(surface)@.next).patches),
{
    match from.dom_text_node {
        Some(text_node) => {
            if from.val != to.val {
                patch::set_text_data(surface, text_node, &to.val);
            } else {
                assert(surface@.pending =~= old(surface)@.pending + Seq::<PatchView>::empty());
            }
            to.dom_text_node = Some(text_node);
        },
        None => vstd::pervasive::unreached(),
    }
}

/// Patches the attributes of `dom_element` from those of `from` to those
/// of `to`.
fn diff_attributes(surface: &mut Surface, dom_element: Handle, from: &Element, to: &Element)
    ensures
        final(surface)@ == old(surface)@.record(diffed_attributes(dom_element, from@.attrs, to@.attrs)),
{
    let ghost from_attrs = from@.attrs;
    let ghost to_attrs = to@.attrs;
    assert(owned_keys(from.attrs@) =~= keys(from_attrs));
    assert(owned_keys(to.attrs@) =~= keys(to_attrs));
    let ghost stale = Seq::new(from_attrs.len(), |i: int| stale_attribute(dom_element, from_attrs[i], to_attrs));
    let mut i: usize = 0;
    while i < from.attrs.len()
        invariant
            i <= from.attrs.len(),
            from_attrs == from@.attrs,
            to_attrs == to@.attrs,
            owned_keys(to.attrs@) == keys(to_attrs),
            stale == Seq::new(from_attrs.len(), |i: int| stale_attribute(dom_element, from_attrs[i], to_attrs)),
            surface@ == old(surface)@.record(collect(stale.take(i as int))),
        decreases from.attrs.len() - i,
    {
        let from_name = &from.attrs[i].0;
        let from_val = &from.attrs[i].1;
        proof {
            assert(stale.take(i + 1).drop_last() =~= stale.take(i as int));
            assert(stale.take(i + 1).last() == stale_attribute(dom_element, from_attrs[i as int], to_attrs));
            lemma_position(to_attrs, from_name@);
        }
        match find(&to.attrs, from_name) {
            Some(j) => {
                let to_val = &to.attrs[j].1;
                if *from_val != *to_val {
                    patch::set_attribute(surface, dom_element, from_name, to_val);
                }
            },
            None => patch::remove_attribute(surface, dom_element, from_name),
        }
        assert(surface@.pending =~= old(surface)@.pending + collect(stale.take(i + 1)));
        i += 1;
    }
    assert(stale.take(from.attrs.len() as int) =~= stale);
    let ghost mid = surface@;
    let ghost fresh = Seq::new(to_attrs.len(), |i: int| fresh_attribute(dom_element, to_attrs[i], from_attrs));
    let mut k: usize = 0;
    while k < to.attrs.len()
        invariant
            k <= to.attrs.len(),
            from_attrs == from@.attrs,
            to_attrs == to@.attrs,
            owned_keys(from.attrs@) == keys(from_attrs),
            fresh == Seq::new(to_attrs.len(), |i: int| fresh_attribute(dom_element, to_attrs[i], from_attrs)),
            surface@ == mid.record(collect(fresh.take(k as int))),
        decreases to.attrs.len() - k,
    {
        let to_name = &to.attrs[k].0;
        let to_val = &to.attrs[k].1;
        proof {
            assert(fresh.take(k + 1).drop_last() =~= fresh.take(k as int));
            assert(fresh.take(k + 1).last() == fresh_attribute(dom_element, to_attrs[k as int], from_attrs));
        }
        if find(&from.attrs, to_name).is_none() {
            patch::set_attribute(surface, dom_element, to_name, to_val);
        }
        assert(surface@.pending =~= mid.pending + collect(fresh.take(k + 1)));
        k += 1;
    }
    assert(fresh.take(to.attrs.len() as int) =~= fresh);
    assert(surface@.pending =~= old(surface)@.pending + diffed_attributes(dom_element, from_attrs, to_attrs));
}

/// Reconciles the listeners of `to` against those of `from`, both on
/// `dom_element`.
fn diff_listeners(surface: &mut Surface, wname: &str, dom_element: Handle, from: &Element, to: &mut Element)
    requires
        detachable(from@.listeners, old(to)@.listeners),
        diffed_listeners(wname@, dom_element, from@.listeners, old(to)@.listeners, old(surface)@.next).next
            <= u64::MAX,
    ensures
        final(to).tag == old(to).tag,
        final(to).attrs == old(to).attrs,
        final(to).children == old(to).children,
        final(to).dom_element == old(to).dom_element,
        final(to)@.listeners == diffed_listeners(
            wname@,
            dom_element,
            from@.listeners,
            old(to)@.listeners,
            old(surface)@.next,
        ).listeners,
        final(surface)@ == old(surface)@.advance(
            diffed_listeners(wname@, dom_element, from@.listeners, old(to)@.listeners, old(surface)@.next).patches,
            diffed_listeners(wname@, dom_element, from@.listeners, old(to)@.listeners, old(surface)@.next).next,
        ),
{
    let ghost olds = from@.listeners;
    let ghost news = to@.listeners;
    let ghost start = surface@.next;
    let ghost goal = diffed_listeners(wname@, dom_element, olds, news, start);
    proof {
        surface.lemma_next_in_range();
        assert(owned_keys(from.listeners@) =~= keys(olds));
        assert(owned_keys(to.listeners@) =~= keys(news));
        lemma_stale_listeners(wname@, dom_element, olds, news, start);
        lemma_fresh_listeners(
            wname@,
            dom_element,
            olds,
            stale_listeners(wname@, dom_element, olds, news, start).listeners,
            stale_listeners(wname@, dom_element, olds, news, start).next,
        );
        assert(surface@.pending =~= surface@.pending + Seq::<PatchView>::empty());
    }
    let mut i: usize = 0;
    while i < from.listeners.len()
        invariant
            i <= from.listeners.len(),
            olds == from@.listeners,
            news == old(to)@.listeners,
            start == old(surface)@.next,
            to.tag == old(to).tag,
            to.attrs == old(to).attrs,
            to.children == old(to).children,
            to.dom_element == old(to).dom_element,
            detachable(olds, news),
            owned_keys(to.listeners@) == keys(news),
            stale_listeners(wname@, dom_element, olds, news, start).next <= u64::MAX,
            to@.listeners == stale_listeners(wname@, dom_element, olds.take(i as int), news, start).listeners,
            surface@ == old(surface)@.advance(
                stale_listeners(wname@, dom_element, olds.take(i as int), news, start).patches,
                stale_listeners(wname@, dom_element, olds.take(i as int), news, start).next,
            ),
        decreases from.listeners.len() - i,
    {
        let from_name = &from.listeners[i].0;
        let from_val = &from.listeners[i].1;
        let ghost before = stale_listeners(wname@, dom_element, olds.take(i as int), news, start);
        let ghost seen = to@.listeners;
        proof {
            assert(olds.take(i + 1).drop_last() =~= olds.take(i as int));
            assert(olds.take(i + 1).last() == olds[i as int]);
            lemma_position(news, from_name@);
            lemma_stale_listeners(wname@, dom_element, olds.take(i as int), news, start);
            lemma_stale_listeners_take(wname@, dom_element, olds, news, start, i + 1);
        }
        match find(&to.listeners, from_name) {
            Some(j) => {
                assert(seen[j as int].1.kind == news[j as int].1.kind);
                if listener_are_different(&from_val.kind, &to.listeners[j].1.kind) {
                    let to_val = &mut to.listeners[j].1;
                    patch::set_listener(surface, wname, dom_element, from_name, to_val);
                    proof {
                        let after = stale_listeners(wname@, dom_element, olds.take(i + 1), news, start);
                        assert(to@.listeners =~= after.listeners);
                        assert(owned_keys(to.listeners@) =~= keys(news));
                    }
                }
            },
            None => {
                patch::remove_listener(surface, dom_element, from_name, from_val);
            },
        }
        assert(surface@.pending =~= old(surface)@.pending + stale_listeners(
            wname@,
            dom_element,
            olds.take(i + 1),
            news,
            start,
        ).patches);
        i += 1;
    }
    assert(olds.take(from.listeners.len() as int) =~= olds);
    let ghost stale = stale_listeners(wname@, dom_element, olds, news, start);
    let ghost mid = surface@;
    proof {
        assert(surface@.pending =~= mid.pending + Seq::<PatchView>::empty());
        assert(owned_keys(from.listeners@) =~= keys(olds));
        assert(to@.listeners.take(0) =~= Seq::empty());
    }
    let mut k: usize = 0;
    while k < to.listeners.len()
        invariant
            k <= to.listeners.len(),
            olds == from@.listeners,
            to.tag == old(to).tag,
            to.attrs == old(to).attrs,
            to.children == old(to).children,
            to.dom_element == old(to).dom_element,
            to.listeners.len() == stale.listeners.len(),
            owned_keys(from.listeners@) == keys(olds),
            mid.next == stale.next,
            fresh_listeners(wname@, dom_element, olds, stale.listeners, stale.next).next <= u64::MAX,
            forall|j: int| k <= j < to.listeners.len() ==> #[trigger] to@.listeners[j] == stale.listeners[j],
            to@.listeners.take(k as int) == fresh_listeners(
                wname@,
                dom_element,
                olds,
                stale.listeners.take(k as int),
                stale.next,
            ).listeners,
            surface@ == mid.advance(
                fresh_listeners(wname@, dom_element, olds, stale.listeners.take(k as int), stale.next).patches,
                fresh_listeners(wname@, dom_element, olds, stale.listeners.take(k as int), stale.next).next,
            ),
        decreases to.listeners.len() - k,
    {
        let ghost seen = to@.listeners;
        proof {
            assert(stale.listeners.take(k + 1).drop_last() =~= stale.listeners.take(k as int));
            assert(stale.listeners.take(k + 1).last() == stale.listeners[k as int]);
            assert(seen[k as int] == stale.listeners[k as int]);
            lemma_fresh_listeners(wname@, dom_element, olds, stale.listeners.take(k as int), stale.next);
            lemma_fresh_listeners_take(wname@, dom_element, olds, stale.listeners, stale.next, k + 1);
        }
        if find(&from.listeners, &to.listeners[k].0).is_none() {
            let entry = &mut to.listeners[k];
            patch::set_listener(surface, wname, dom_element, &entry.0, &mut entry.1);
        }
        proof {
            let after = fresh_listeners(wname@, dom_element, olds, stale.listeners.take(k + 1), stale.next);
            assert(surface@.pending =~= mid.pending + after.patches);
            assert forall|j: int| k < j < to.listeners.len() implies #[trigger] to@.listeners[j]
                == stale.listeners[j] by {
                assert(to@.listeners[j] == seen[j]);
            }
            assert(to@.listeners.take(k + 1) =~= after.listeners) by {
                assert forall|j: int| 0 <= j < k implies to@.listeners[j] == seen.take(k as int)[j] by {}
            }
        }
        k += 1;
    }
    proof {
        assert(stale.listeners.take(to.listeners.len() as int) =~= stale.listeners);
        assert(to@.listeners.take(to.listeners.len() as int) =~= to@.listeners);
        assert(surface@.pending =~= old(surface)@.pending + goal.patches);
    }
}

/// Reconciles `to` against the drawn `from` on behalf of the widget
/// `wname`. The surface is patched where the two differ, and `to` ends up
/// drawn: it holds the handles of what it kept and of what was drawn anew.
pub fn diff_node(surface: &mut Surface, wname: &str, from: &Node, to: &mut Node)
    requires
        reconcilable(from@, old(to)@),
        diffed_node(wname@, from@, old(to)@, old(surface)@.next).next <= u64::MAX,
    ensures
        final(to)@ == diffed_node(wname@, from@, old(to)@, old(surface)@.next).node,
        final(surface)@ == old(surface)@.advance(
            diffed_node(wname@, from@, old(to)@, old(surface)@.next).patches,
            diffed_node(wname@, from@, old(to)@, old(surface)@.next).next,
        ),
    decreases old(to)@, 0nat,
{
    let ghost news = to@;
    let ghost start = surface@.next;
    match (from, to) {
        (Node::Element(from_el), Node::Element(to_el)) => diff_element(surface, wname, from_el, to_el),
        (Node::Text(from_txt), Node::Text(to_txt)) => diff_text(surface, from_txt, to_txt),
        (Node::Widget(from_w), Node::Widget(to_w)) => {
            diff_widget(surface, from_w, to_w);
        },
        (from_node, to_node) => {
            proof {
                draw::lemma_drawn_next(news, start);
                draw::lemma_drawn_handle(news, start);
            }
            draw::node(surface, to_node);
            match (from_node.dom_node(), to_node.dom_node()) {
                (Some(dom_node), Some(by)) => {
                    patch::replace_node(surface, dom_node, by);
                    assert(surface@.pending =~= old(surface)@.pending + replaced(dom_node, news, start).patches);
                },
                _ => vstd::pervasive::unreached(),
            }
        },
    }
}

/// Reconciles the element `to` against the drawn element `from` on behalf
/// of the widget `wname`.
pub fn diff_element(surface: &mut Surface, wname: &str, from: &Element, to: &mut Element)
    requires
        reconcilable(NodeView::Element(from@), NodeView::Element(old(to)@)),
        diffed_element(wname@, from@, old(to)@, old(surface)@.next).next <= u64::MAX,
    ensures
        NodeView::Element(final(to)@) == diffed_element(wname@, from@, old(to)@, old(surface)@.next).node,
        final(surface)@ == old(surface)@.advance(
            diffed_element(wname@, from@, old(to)@, old(surface)@.next).patches,
            diffed_element(wname@, from@, old(to)@, old(surface)@.next).next,
        ),
    decreases old(to)@, 0nat,
{
    match from.dom_element {
        Some(dom_element) => {
            let ghost start = surface@.next;
            let ghost news = to@;
            proof {
                if from@.tag != news.tag {
                    draw::lemma_drawn_next(NodeView::Element(news), start);
                } else {
                    lemma_diffed_children_next(wname@, dom_element, from@.children, news.children, start);
                    let children = diffed_children(wname@, dom_element, from@.children, news.children, start);
                    lemma_stale_listeners(wname@, dom_element, from@.listeners, news.listeners, children.next);
                    let stale = stale_listeners(wname@, dom_element, from@.listeners, news.listeners, children.next);
                    lemma_fresh_listeners(wname@, dom_element, from@.listeners, stale.listeners, stale.next);
                }
            }
            if diff_name(surface, dom_element, from, to) {
                diff_attributes(surface, dom_element, from, to);
                diff_children(surface, wname, dom_element, from, to);
                diff_listeners(surface, wname, dom_element, from, to);
                to.dom_element = Some(dom_element);
                proof {
                    let goal = diffed_element(wname@, from@, news, start);
                    assert(surface@.pending =~= old(surface)@.pending + goal.patches);
                }
            }
        },
        None => vstd::pervasive::unreached(),
    }
}

/// Compares the tags. If they differ, `to` is drawn and replaces
/// `dom_element`, and there is nothing more to reconcile.
fn diff_name(surface: &mut Surface, dom_element: Handle, from: &Element, to: &mut Element) -> (same: bool)
    requires
        from@.tag != old(to)@.tag ==> old(surface)@.has_room(draw::handle_need(NodeView::Element(old(to)@))),
    ensures
        same == (from@.tag == old(to)@.tag),
        same ==> *final(to) == *old(to) && final(surface)@ == old(surface)@,
        !same ==> NodeView::Element(final(to)@) == replaced(
            dom_element,
            NodeView::Element(old(to)@),
            old(surface)@.next,
        ).node,
        !same ==> final(surface)@ == old(surface)@.advance(
            replaced(dom_element, NodeView::Element(old(to)@), old(surface)@.next).patches,
            replaced(dom_element, NodeView::Element(old(to)@), old(surface)@.next).next,
        ),
{
    if from.tag != to.tag {
        draw::element(surface, to);
        match to.dom_element {
            Some(by) => {
                patch::replace_node(surface, dom_element, by);
                assert(surface@.pending =~= old(surface)@.pending + replaced(
                    dom_element,
                    NodeView::Element(old(to)@),
                    old(surface)@.next,
                ).patches);
            },
            None => vstd::pervasive::unreached(),
        }
        false
    } else {
        true
    }
}

/// Reconciles the children of `to` against those of `from`, under
/// `dom_element`.
fn diff_children(surface: &mut Surface, wname: &str, dom_element: Handle, from: &Element, to: &mut Element)
    requires
        forall|i: int|
            #![trigger old(to)@.children[i]]
            0 <= i < from@.children.len() && 0 <= i < old(to)@.children.len() ==> reconcilable(
                from@.children[i],
                old(to)@.children[i],
            ),
        diffed_children(wname@, dom_element, from@.children, old(to)@.children, old(surface)@.next).next
            <= u64::MAX,
    ensures
        final(to).tag == old(to).tag,
        final(to).attrs == old(to).attrs,
        final(to).listeners == old(to).listeners,
        final(to).dom_element == old(to).dom_element,
        final(to)@.children == diffed_children(
            wname@,
            dom_element,
            from@.children,
            old(to)@.children,
            old(surface)@.next,
        ).nodes,
        final(surface)@ == old(surface)@.advance(
            diffed_children(wname@, dom_element, from@.children, old(to)@.children, old(surface)@.next).patches,
            diffed_children(wname@, dom_element, from@.children, old(to)@.children, old(surface)@.next).next,
        ),
    decreases old(to)@.children, 1nat,
{
    let from_len = from.children.len();
    let to_len = to.children.len();
    let ghost olds = from@.children;
    let ghost news = to@.children;
    let ghost start = surface@.next;
    let ghost goal = diffed_children(wname@, dom_element, olds, news, start);
    let ghost tail = news.skip(from_len as int);
    let ghost grown = draw::drawn_all(tail, start);
    assert(olds == nodes_view(from.children@));
    assert(news == nodes_view(to.children@));
    if from_len >= to_len {
        patch::remove_children(surface, dom_element, from_len - to_len);
    } else {
        let mut handles: Vec<Handle> = Vec::new();
        let mut j: usize = from_len;
        proof {
            draw::lemma_drawn_all_next(tail, start);
            lemma_diffed_pairs_next(wname@, olds, news, from_len as nat, grown.next);
            surface.lemma_next_in_range();
            assert(surface@.pending =~= surface@.pending + Seq::<PatchView>::empty());
            assert(tail.take(0) =~= Seq::empty());
        }
        while j < to_len
            invariant
                from_len <= j <= to_len,
                to_len == to.children.len(),
                to_len == news.len(),
                from_len == olds.len(),
                to.tag == old(to).tag,
                to.attrs == old(to).attrs,
                to.listeners == old(to).listeners,
                to.dom_element == old(to).dom_element,
                news == old(to)@.children,
                start == old(surface)@.next,
                tail == news.skip(from_len as int),
                grown == draw::drawn_all(tail, start),
                grown.next <= u64::MAX,
                forall|k: int| 0 <= k < from_len ==> #[trigger] to.children[k]@ == news[k],
                forall|k: int| j <= k < to_len ==> #[trigger] to.children[k]@ == news[k],
                nodes_view(to.children@).subrange(from_len as int, j as int) == draw::drawn_all(
                    tail.take(j - from_len),
                    start,
                ).nodes,
                handles@ == draw::handles_of(draw::drawn_all(tail.take(j - from_len), start).nodes),
                surface@ == old(surface)@.advance(
                    draw::drawn_all(tail.take(j - from_len), start).patches,
                    draw::drawn_all(tail.take(j - from_len), start).next,
                ),
            decreases to_len - j,
        {
            let ghost seen = nodes_view(to.children@);
            let ghost done = draw::drawn_all(tail.take(j - from_len), start);
            proof {
                assert(tail.take(j - from_len + 1).drop_last() =~= tail.take(j - from_len));
                assert(tail.take(j - from_len + 1).last() == news[j as int]);
                draw::lemma_drawn_all_next(tail.take(j - from_len), start);
                draw::lemma_drawn_all_next(tail.take(j - from_len + 1), start);
                draw::lemma_drawn_all_next(tail, start);
                draw::lemma_handle_need_all_take(tail, j - from_len + 1);
                draw::lemma_drawn_next(news[j as int], done.next);
                draw::lemma_drawn_handle(news[j as int], done.next);
            }
            draw::node(surface, &mut to.children[j]);
            match to.children[j].dom_node() {
                Some(handle) => {
                    handles.push(handle);
                },
                None => vstd::pervasive::unreached(),
            }
            proof {
                let after = draw::drawn_all(tail.take(j - from_len + 1), start);
                assert(surface@.pending =~= old(surface)@.pending + after.patches);
                assert(nodes_view(to.children@).subrange(from_len as int, j + 1) =~= after.nodes) by {
                    assert forall|k: int| 0 <= k < j - from_len implies nodes_view(to.children@)[from_len + k]
                        == seen.subrange(from_len as int, j as int)[k] by {}
                }
                assert(handles@ =~= draw::handles_of(after.nodes));
                assert forall|k: int| 0 <= k < from_len implies #[trigger] to.children[k]@ == news[k] by {
                    assert(to.children[k]@ == seen[k]);
                }
                assert forall|k: int| j + 1 <= k < to_len implies #[trigger] to.children[k]@ == news[k] by {
                    assert(to.children[k]@ == seen[k]);
                }
            }
            j += 1;
        }
        proof {
            assert(tail.take(to_len - from_len) =~= tail);
        }
        patch::add_children(surface, dom_element, &handles);
    }
    let common = if from_len < to_len {
        from_len
    } else {
        to_len
    };
    let ghost mid = surface@;
    let ghost settled = nodes_view(to.children@);
    let ghost first = if from_len < to_len {
        grown.next
    } else {
        start
    };
    proof {
        assert(surface@.pending =~= mid.pending + Seq::<PatchView>::empty());
        assert(nodes_view(to.children@).take(0) =~= Seq::empty());
        lemma_diffed_pairs_next(wname@, olds, news, common as nat, first);
    }
    let mut i: usize = 0;
    while i < common
        invariant
            i <= common,
            common <= from_len,
            common <= to_len,
            to_len == to.children.len(),
            to_len == news.len(),
            to_len == settled.len(),
            from_len == olds.len(),
            from_len == from.children.len(),
            olds == nodes_view(from.children@),
            to.tag == old(to).tag,
            to.attrs == old(to).attrs,
            to.listeners == old(to).listeners,
            to.dom_element == old(to).dom_element,
            news == old(to)@.children,
            mid.next == first,
            diffed_pairs(wname@, olds, news, common as nat, first).next <= u64::MAX,
            forall|k: int|
                #![trigger news[k]]
                0 <= k < olds.len() && 0 <= k < news.len() ==> reconcilable(olds[k], news[k]),
            forall|k: int| i <= k < common ==> #[trigger] to.children[k]@ == news[k],
            forall|k: int| common <= k < to_len ==> #[trigger] to.children[k]@ == settled[k],
            nodes_view(to.children@).take(i as int) == diffed_pairs(wname@, olds, news, i as nat, first).nodes,
            surface@ == mid.advance(
                diffed_pairs(wname@, olds, news, i as nat, first).patches,
                diffed_pairs(wname@, olds, news, i as nat, first).next,
            ),
        decreases common - i,
    {
        let ghost seen = nodes_view(to.children@);
        let ghost before = diffed_pairs(wname@, olds, news, i as nat, first);
        proof {
            lemma_diffed_pairs_fewer(wname@, olds, news, (i + 1) as nat, common as nat, first);
            assert(reconcilable(olds[i as int], news[i as int]));
            assert(from.children[i as int]@ == olds[i as int]);
        }
        diff_node(surface, wname, &from.children[i], &mut to.children[i]);
        proof {
            let after = diffed_pairs(wname@, olds, news, (i + 1) as nat, first);
            assert(surface@.pending =~= mid.pending + after.patches);
            assert(nodes_view(to.children@).take(i + 1) =~= after.nodes) by {
                assert forall|k: int| 0 <= k < i implies nodes_view(to.children@)[k] == seen.take(i as int)[k] by {}
            }
            assert forall|k: int| i + 1 <= k < common implies #[trigger] to.children[k]@ == news[k] by {
                assert(to.children[k]@ == seen[k]);
            }
            assert forall|k: int| common <= k < to_len implies #[trigger] to.children[k]@ == settled[k] by {
                assert(to.children[k]@ == seen[k]);
            }
        }
        i += 1;
    }
    proof {
        let pairs = diffed_pairs(wname@, olds, news, common as nat, first);
        lemma_diffed_pairs_next(wname@, olds, news, common as nat, first);
        if from_len >= to_len {
            assert(nodes_view(to.children@).take(to_len as int) =~= nodes_view(to.children@));
        } else {
            draw::lemma_drawn_all_next(tail, start);
            assert(nodes_view(to.children@) =~= pairs.nodes + grown.nodes) by {
                assert forall|k: int| 0 <= k < to_len implies nodes_view(to.children@)[k] == (pairs.nodes
                    + grown.nodes)[k] by {
                    if k < from_len {
                        assert(nodes_view(to.children@)[k] == nodes_view(to.children@).take(from_len as int)[k]);
                    } else {
                        assert(to.children[k]@ == settled[k]);
                        assert(settled[k] == settled.subrange(from_len as int, to_len as int)[k - from_len]);
                    }
                }
            }
        }
        assert(surface@.pending =~= old(surface)@.pending + goal.patches);
    }
}

/// Whether every listener of `from` that `to` lacks knows its native
/// callback.
fn can_detach(from: &Vec<(String, Listener)>, to: &Vec<(String, Listener)>) -> (can: bool)
    ensures
        can == detachable(listeners_view(from@), listeners_view(to@)),
{
    let ghost olds = listeners_view(from@);
    let ghost news = listeners_view(to@);
    assert(owned_keys(to@) =~= keys(news));
    let mut i: usize = 0;
    while i < from.len()
        invariant
            i <= from.len(),
            olds == listeners_view(from@),
            news == listeners_view(to@),
            owned_keys(to@) == keys(news),
            forall|k: int| 0 <= k < i && position(news, (#[trigger] olds[k]).0) is None ==> olds[k].1.callback is Some,
        decreases from.len() - i,
    {
        if from[i].1.callback.is_none() && find(to, &from[i].0).is_none() {
            assert(position(news, olds[i as int].0) is None);
            return false;
        }
        i += 1;
    }
    true
}

/// Whether `to` can be reconciled against `from`.
#[verifier::loop_isolation(false)]
pub fn can_reconcile(from: &Node, to: &Node) -> (can: bool)
    ensures
        can == reconcilable(from@, to@),
    decreases to,
{
    match (from, to) {
        (Node::Element(from_el), Node::Element(to_el)) => {
            if from_el.dom_element.is_none() {
                return false;
            }
            if from_el.tag != to_el.tag {
                return true;
            }
            if !can_detach(&from_el.listeners, &to_el.listeners) {
                return false;
            }
            let common = if from_el.children.len() < to_el.children.len() {
                from_el.children.len()
            } else {
                to_el.children.len()
            };
            let ghost olds = from_el@.children;
            let ghost news = to_el@.children;
            assert(olds == nodes_view(from_el.children@));
            assert(news == nodes_view(to_el.children@));
            let mut i: usize = 0;
            while i < common
                invariant
                    i <= common,
                    forall|k: int| #![trigger news[k]] 0 <= k < i ==> reconcilable(olds[k], news[k]),
                decreases common - i,
            {
                if !can_reconcile(&from_el.children[i], &to_el.children[i]) {
                    assert(!reconcilable(olds[i as int], news[i as int]));
                    return false;
                }
                i += 1;
            }
            true
        },
        (Node::Text(from_txt), Node::Text(_)) => from_txt.dom_text_node.is_some(),
        (Node::Widget(_), Node::Widget(_)) => true,
        (from_node, _) => from_node.dom_node().is_some(),
    }
}

/// Whether two listener kinds differ: they do unless they are the same
/// variant over the same callback.
pub fn listener_are_different(l1: &ListenerKind, l2: &ListenerKind) -> (different: bool)
    ensures
        different == (*l1 != *l2),
{
    match (l1, l2) {
        (ListenerKind::Factory(fac1), ListenerKind::Factory(fac2)) => *fac1 != *fac2,
        (ListenerKind::Evented(cb1), ListenerKind::Evented(cb2)) => *cb1 != *cb2,
        (ListenerKind::Valued(cb1), ListenerKind::Valued(cb2)) => *cb1 != *cb2,
        (_, _) => true,
    }
}

} // verus!
