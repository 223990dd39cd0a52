use crate::events::{CallbackId, Listener, ListenerKind};
use crate::keyed::{find, keys, lemma_position, lemma_unique_position, lookup, owned_keys, position, unique_keys};
use crate::nodes::node::{nodes_view, Node, NodeView};
use crate::surface::Handle;
use vstd::prelude::*;

verus! {

/// A container: a tag, attributes with unique names, children in order, and
/// listeners with unique event names.
#[derive(Debug)]
pub struct Element {
    pub tag: String,
    pub attrs: Vec<(String, String)>,
    pub children: Vec<Node>,
    /// The container that shows this element, once it is drawn.
    pub dom_element: Option<Handle>,
    pub listeners: Vec<(String, Listener)>,
}

/// The mathematical value of an [`Element`].
pub struct ElementView {
    pub tag: Seq<char>,
    pub attrs: Seq<(Seq<char>, Seq<char>)>,
    pub children: Seq<NodeView>,
    pub handle: Option<Handle>,
    pub listeners: Seq<(Seq<char>, Listener)>,
}

/// The attributes behind a vector of owned pairs.
pub open spec fn attrs_view(attrs: Seq<(String, String)>) -> Seq<(Seq<char>, Seq<char>)> {
    attrs.map_values(|a: (String, String)| (a.0@, a.1@))
}

/// The listeners behind a vector of owned pairs.
pub open spec fn listeners_view(listeners: Seq<(String, Listener)>) -> Seq<(Seq<char>, Listener)> {
    listeners.map_values(|l: (String, Listener)| (l.0@, l.1))
}

impl View for Element {
    type V = ElementView;

    open spec fn view(&self) -> ElementView
        decreases self,
    {
        ElementView {
            tag: self.tag@,
            attrs: attrs_view(self.attrs@),
            children: nodes_view(self.children@),
            handle: self.dom_element,
            listeners: listeners_view(self.listeners@),
        }
    }
}

/// `entries` with `value` under `key`: in the place of the first entry
/// under `key` if there is one, at the end otherwise.
pub open spec fn inserted<V>(entries: Seq<(Seq<char>, V)>, key: Seq<char>, value: V) -> Seq<(Seq<char>, V)> {
    match position(entries, key) {
        Some(i) => entries.update(i, (key, value)),
        None => entries.push((key, value)),
    }
}

/// Inserting keeps the keys unique, and the new value is what is then
/// found under the key.
pub proof fn lemma_inserted<V>(entries: Seq<(Seq<char>, V)>, key: Seq<char>, value: V)
    requires
        unique_keys(entries),
    ensures
        unique_keys(inserted(entries, key, value)),
        lookup(inserted(entries, key, value), key) == Some(value),
{
    lemma_position(entries, key);
    let after = inserted(entries, key, value);
    match position(entries, key) {
        Some(i) => {
            assert(keys(after) =~= keys(entries));
            lemma_unique_position(after, i);
        },
        None => {
            assert(keys(after) =~= keys(entries).push(key));
            assert forall|a: int, b: int| 0 <= a < after.len() && 0 <= b < after.len() && a != b implies keys(
                after,
            )[a] != keys(after)[b] by {
                if a < entries.len() {
                    assert(keys(after)[a] == entries[a].0);
                }
                if b < entries.len() {
                    assert(keys(after)[b] == entries[b].0);
                }
            }
            lemma_unique_position(after, entries.len() as int);
        },
    }
}

impl Element {
    /// An undrawn element with the given tag and nothing else.
    pub fn new(tag: &str) -> (element: Element)
        ensures
            element@ == (ElementView {
                tag: tag@,
                attrs: Seq::empty(),
                children: Seq::empty(),
                handle: None,
                listeners: Seq::empty(),
            }),
    {
        let element = Element {
            tag: tag.to_owned(),
            attrs: Vec::new(),
            children: Vec::new(),
            dom_element: None,
            listeners: Vec::new(),
        };
        assert(element@.attrs =~= Seq::empty());
        assert(element@.children =~= Seq::empty());
        assert(element@.listeners =~= Seq::empty());
        element
    }

    /// This element with `child` as its last child.
    pub fn child(self, child: Node) -> (element: Element)
        ensures
            element@ == (ElementView { children: self@.children.push(child@), ..self@ }),
    {
        let ghost before = self@;
        let mut element = self;
        assert(before.children == nodes_view(element.children@));
        element.children.push(child);
        assert(nodes_view(element.children@) =~= before.children.push(child@));
        element
    }

    /// This element with the attribute `name` set to `val`, in the place
    /// of the attribute of that name if it had one.
    pub fn attr(self, name: &str, val: &str) -> (element: Element)
        ensures
            element@ == (ElementView { attrs: inserted(self@.attrs, name@, val@), ..self@ }),
    {
        let ghost before = self@;
        let key = name.to_owned();
        let mut element = self;
        assert(owned_keys(element.attrs@) =~= keys(before.attrs));
        match find(&element.attrs, &key) {
            Some(i) => {
                element.attrs[i].1 = val.to_owned();
                assert(attrs_view(element.attrs@) =~= inserted(before.attrs, name@, val@)) by {
                    lemma_position(before.attrs, name@);
                }
            },
            None => {
                element.attrs.push((key, val.to_owned()));
                assert(attrs_view(element.attrs@) =~= inserted(before.attrs, name@, val@));
            },
        }
        element
    }

    /// This element listening to `event` with the callback `action`,
    /// which takes nothing.
    pub fn on(self, event: &str, action: CallbackId) -> (element: Element)
        ensures
            element@ == (ElementView {
                listeners: inserted(
                    self@.listeners,
                    event@,
                    Listener { kind: ListenerKind::Factory(action), callback: None },
                ),
                ..self@
            }),
    {
        self.on_listener_kind(event, ListenerKind::Factory(action))
    }

    /// This element listening to `event` with the callback `action`,
    /// which takes the current value of the event's target.
    pub fn on_value(self, event: &str, action: CallbackId) -> (element: Element)
        ensures
            element@ == (ElementView {
                listeners: inserted(
                    self@.listeners,
                    event@,
                    Listener { kind: ListenerKind::Valued(action), callback: None },
                ),
                ..self@
            }),
    {
        self.on_listener_kind(event, ListenerKind::Valued(action))
    }

    /// This element listening to `event` with the callback `action`,
    /// which takes the native event.
    pub fn on_event(self, event: &str, action: CallbackId) -> (element: Element)
        ensures
            element@ == (ElementView {
                listeners: inserted(
                    self@.listeners,
                    event@,
                    Listener { kind: ListenerKind::Evented(action), callback: None },
                ),
                ..self@
            }),
    {
        self.on_listener_kind(event, ListenerKind::Evented(action))
    }

    /// This element with an unbound listener of the kind `action` for
    /// `event`, in the place of the listener for that event if it had one.
    pub fn on_listener_kind(self, event: &str, action: ListenerKind) -> (element: Element)
        ensures
            element@ == (ElementView {
                listeners: inserted(self@.listeners, event@, Listener { kind: action, callback: None }),
                ..self@
            }),
    {
        let ghost before = self@;
        let key = event.to_owned();
        let mut element = self;
        assert(owned_keys(element.listeners@) =~= keys(before.listeners));
        match find(&element.listeners, &key) {
            Some(i) => {
                element.listeners[i].1 = Listener { kind: action, callback: None };
                assert(listeners_view(element.listeners@) =~= inserted(
                    before.listeners,
                    event@,
                    Listener { kind: action, callback: None },
                )) by {
                    lemma_position(before.listeners, event@);
                }
            },
            None => {
                element.listeners.push((key, Listener { kind: action, callback: None }));
                assert(listeners_view(element.listeners@) =~= inserted(
                    before.listeners,
                    event@,
                    Listener { kind: action, callback: None },
                ));
            },
        }
        element
    }

    /// This element as a node of a tree.
    pub fn node(self) -> (node: Node)
        ensures
            node == Node::Element(self),
    {
        Node::Element(self)
    }
}

} // verus!
