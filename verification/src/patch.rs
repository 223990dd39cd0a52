//! The primitive mutations of the display surface. Each function records
//! the patches of one mutation on the surface, in the order in which the
//! host has to apply them.

use crate::events::{add_event_listener, Listener};
use crate::surface::{Handle, Patch, PatchView, Surface};
use vstd::prelude::*;

verus! {

/// The patches that append `children` to `parent`, first child first.
pub open spec fn appends(parent: Handle, children: Seq<Handle>) -> Seq<PatchView> {
    Seq::new(children.len(), |i: int| PatchView::AppendChild { parent, child: children[i] })
}

/// The patches that remove the last `n` children of `parent`.
pub open spec fn removals(parent: Handle, n: nat) -> Seq<PatchView> {
    Seq::new(n, |i: int| PatchView::RemoveLastChild { parent })
}

/// Puts `by` where `dom_node` stands.
pub fn replace_node(surface: &mut Surface, dom_node: Handle, by: Handle)
    ensures
        final(surface)@ == old(surface)@.record(seq![PatchView::ReplaceNode { node: dom_node, by }]),
{
    surface.record(Patch::ReplaceNode { node: dom_node, by });
}

/// Sets attribute `name` of `dom_element` to `val`.
pub fn set_attribute(surface: &mut Surface, dom_element: Handle, name: &str, val: &str)
    ensures
        final(surface)@ == old(surface)@.record(
            seq![PatchView::SetAttribute { element: dom_element, name: name@, value: val@ }],
        ),
{
    surface.record(Patch::SetAttribute { element: dom_element, name: name.to_owned(), value: val.to_owned() });
}

/// Removes attribute `name` from `dom_element`.
pub fn remove_attribute(surface: &mut Surface, dom_element: Handle, name: &str)
    ensures
        final(surface)@ == old(surface)@.record(
            seq![PatchView::RemoveAttribute { element: dom_element, name: name@ }],
        ),
{
    surface.record(Patch::RemoveAttribute { element: dom_element, name: name.to_owned() });
}

/// Binds a native callback for `listener` under the event `name` on
/// `dom_element`, and remembers the callback's handle in the listener.
pub fn set_listener(
    surface: &mut Surface,
    wname: &str,
    dom_element: Handle,
    name: &str,
    listener: &mut Listener,
)
    requires
        old(surface)@.has_room(1),
    ensures
        *final(listener) == old(listener).bound(old(surface)@.next as Handle),
        final(surface)@ == old(surface)@.advance(
            seq![old(listener).binding(wname@, dom_element, name@, old(surface)@.next as Handle)],
            old(surface)@.next + 1,
        ),
{
    add_event_listener(surface, wname, name, listener, dom_element)
}

/// Unbinds the native callback of `listener` for the event `name` from
/// `dom_element`.
pub fn remove_listener(surface: &mut Surface, dom_element: Handle, name: &str, listener: &Listener)
    requires
        listener.callback is Some,
    ensures
        final(surface)@ == old(surface)@.record(
            seq![
                PatchView::RemoveListener {
                    element: dom_element,
                    event: name@,
                    callback: listener.callback->Some_0,
                },
            ],
        ),
{
    match listener.callback {
        Some(callback) => {
            surface.record(Patch::RemoveListener { element: dom_element, event: name.to_owned(), callback });
        },
        None => vstd::pervasive::unreached(),
    }
}

/// Appends `children` to `dom_element`, first child first.
pub fn add_children(surface: &mut Surface, dom_element: Handle, children: &Vec<Handle>)
    ensures
        final(surface)@ == old(surface)@.record(appends(dom_element, children@)),
{
    let mut i: usize = 0;
    while i < children.len()
        invariant
            i <= children.len(),
            surface@ == old(surface)@.record(appends(dom_element, children@.take(i as int))),
        decreases children.len() - i,
    {
        surface.record(Patch::AppendChild { parent: dom_element, child: children[i] });
        assert(surface@.pending =~= old(surface)@.pending + appends(dom_element, children@.take(i + 1)));
        i += 1;
    }
    assert(children@.take(children.len() as int) =~= children@);
}

/// Removes the last `n` children of `dom_element`.
pub fn remove_children(surface: &mut Surface, dom_element: Handle, n: usize)
    ensures
        final(surface)@ == old(surface)@.record(removals(dom_element, n as nat)),
{
    let mut i: usize = 0;
    while i < n
        invariant
            i <= n,
            surface@ == old(surface)@.record(removals(dom_element, i as nat)),
        decreases n - i,
    {
        surface.record(Patch::RemoveLastChild { parent: dom_element });
        assert(surface@.pending =~= old(surface)@.pending + removals(dom_element, (i + 1) as nat));
        i += 1;
    }
}

/// Replaces the data of the text object `dom_text` by `data`.
pub fn set_text_data(surface: &mut Surface, dom_text: Handle, data: &str)
    ensures
        final(surface)@ == old(surface)@.record(seq![PatchView::SetTextData { text: dom_text, data: data@ }]),
{
    surface.record(Patch::SetTextData { text: dom_text, data: data.to_owned() });
}

} // verus!
