use lollipop::diff;
use lollipop::draw;
use lollipop::events::{listen, Listener, ListenerKind};
use lollipop::nodes::element::Element;
use lollipop::nodes::node::Node;
use lollipop::nodes::text::Text;
use lollipop::nodes::widget::Widget;
use lollipop::surface::{Patch, Surface};

fn s(text: &str) -> String {
    text.to_string()
}

fn text(value: &str) -> Node {
    Text::new(value).node()
}

/// Draws and wires `node`, and forgets the patches of doing so.
fn mounted(surface: &mut Surface, mut node: Node) -> Node {
    draw::node(surface, &mut node);
    listen(surface, "w", &mut node);
    surface.take_patches();
    node
}

fn sample() -> Node {
    Element::new("div")
        .attr("style", "background-color:lightblue;")
        .on("click", 1)
        .child(Element::new("h3").child(text("yooo")).node())
        .child(Element::new("h1").child(text("Testje")).node())
        .child(text("Klein dom boompje"))
        .node()
}

#[test]
fn diff_against_a_clone_records_nothing() {
    let mut surface = Surface::new();
    let from = mounted(&mut surface, sample());
    let next = surface.next_handle();
    let mut to = sample();
    assert!(diff::can_reconcile(&from, &to));
    diff::diff_node(&mut surface, "w", &from, &mut to);
    assert_eq!(surface.take_patches(), vec![]);
    assert_eq!(surface.next_handle(), next);
    assert_eq!(to.dom_node(), from.dom_node());
}

#[test]
fn diff_div_attributes_and_children_scenario() {
    let mut surface = Surface::new();
    let from = mounted(
        &mut surface,
        Element::new("div").attr("a", "1").attr("b", "2").child(text("one")).child(text("two")).node(),
    );
    let mut to = Element::new("div").attr("b", "3").attr("c", "4").child(text("uno")).node();
    diff::diff_node(&mut surface, "w", &from, &mut to);
    assert_eq!(
        surface.take_patches(),
        vec![
            Patch::RemoveAttribute { element: 0, name: s("a") },
            Patch::SetAttribute { element: 0, name: s("b"), value: s("3") },
            Patch::SetAttribute { element: 0, name: s("c"), value: s("4") },
            Patch::RemoveLastChild { parent: 0 },
            Patch::SetTextData { text: 1, data: s("uno") },
        ]
    );
    assert_eq!(to.dom_node(), Some(0));
    match &to {
        Node::Element(el) => assert_eq!(el.children[0].dom_node(), Some(1)),
        _ => panic!("an element stays an element"),
    }
}

#[test]
fn diff_unchanged_attribute_is_not_touched() {
    let mut surface = Surface::new();
    let from = mounted(&mut surface, Element::new("p").attr("a", "1").attr("b", "2").node());
    let mut to = Element::new("p").attr("b", "2").attr("a", "9").node();
    diff::diff_node(&mut surface, "w", &from, &mut to);
    assert_eq!(surface.take_patches(), vec![Patch::SetAttribute { element: 0, name: s("a"), value: s("9") }]);
}

#[test]
fn diff_shrinking_removes_from_the_tail() {
    let mut surface = Surface::new();
    let from = mounted(
        &mut surface,
        Element::new("div").child(text("a")).child(text("b")).child(text("c")).child(text("d")).node(),
    );
    let mut to = Element::new("div").child(text("a")).node();
    diff::diff_node(&mut surface, "w", &from, &mut to);
    assert_eq!(
        surface.take_patches(),
        vec![
            Patch::RemoveLastChild { parent: 0 },
            Patch::RemoveLastChild { parent: 0 },
            Patch::RemoveLastChild { parent: 0 },
        ]
    );
}

#[test]
fn diff_growing_draws_and_appends_in_order() {
    let mut surface = Surface::new();
    let from = mounted(&mut surface, Element::new("div").child(text("a")).node());
    assert_eq!(surface.next_handle(), 2);
    let mut to = Element::new("div")
        .child(text("b"))
        .child(Element::new("p").attr("k", "v").node())
        .child(text("c"))
        .node();
    diff::diff_node(&mut surface, "w", &from, &mut to);
    assert_eq!(
        surface.take_patches(),
        vec![
            Patch::CreateElement { handle: 2, tag: s("p") },
            Patch::SetAttribute { element: 2, name: s("k"), value: s("v") },
            Patch::CreateText { handle: 3, data: s("c") },
            Patch::AppendChild { parent: 0, child: 2 },
            Patch::AppendChild { parent: 0, child: 3 },
            Patch::SetTextData { text: 1, data: s("b") },
        ]
    );
    match &to {
        Node::Element(el) => {
            assert_eq!(el.children[0].dom_node(), Some(1));
            assert_eq!(el.children[1].dom_node(), Some(2));
            assert_eq!(el.children[2].dom_node(), Some(3));
        },
        _ => panic!("an element stays an element"),
    }
}

#[test]
fn diff_other_tag_replaces_the_element() {
    let mut surface = Surface::new();
    let from = mounted(&mut surface, Element::new("h1").attr("a", "1").child(text("x")).node());
    let mut to = Element::new("h2").attr("a", "1").child(text("x")).node();
    diff::diff_node(&mut surface, "w", &from, &mut to);
    assert_eq!(
        surface.take_patches(),
        vec![
            Patch::CreateElement { handle: 2, tag: s("h2") },
            Patch::SetAttribute { element: 2, name: s("a"), value: s("1") },
            Patch::CreateText { handle: 3, data: s("x") },
            Patch::AppendChild { parent: 2, child: 3 },
            Patch::ReplaceNode { node: 0, by: 2 },
        ]
    );
    assert_eq!(to.dom_node(), Some(2));
}

#[test]
fn diff_other_variant_replaces_the_node() {
    let mut surface = Surface::new();
    let from = mounted(&mut surface, text("x"));
    let mut to = Element::new("p").node();
    diff::diff_node(&mut surface, "w", &from, &mut to);
    assert_eq!(
        surface.take_patches(),
        vec![Patch::CreateElement { handle: 1, tag: s("p") }, Patch::ReplaceNode { node: 0, by: 1 }]
    );
    assert_eq!(to.dom_node(), Some(1));
}

#[test]
fn diff_text_updates_data_in_place() {
    let mut surface = Surface::new();
    let mut from = Text::new("old");
    draw::text(&mut surface, &mut from);
    surface.take_patches();
    let mut to = Text::new("new");
    diff::diff_text(&mut surface, &from, &mut to);
    assert_eq!(surface.take_patches(), vec![Patch::SetTextData { text: 0, data: s("new") }]);
    assert_eq!(to.dom_text_node, Some(0));
    let mut same = Text::new("new");
    diff::diff_text(&mut surface, &to, &mut same);
    assert_eq!(surface.take_patches(), vec![]);
    assert_eq!(same.dom_text_node, Some(0));
}

#[test]
fn diff_widget_replaces_only_another_widget() {
    let mut surface = Surface::new();
    let a = Widget { name: s("a"), dom_node: 4 };
    let a_again = Widget { name: s("a"), dom_node: 9 };
    let b = Widget { name: s("b"), dom_node: 7 };
    diff::diff_widget(&mut surface, &a, &a_again);
    assert_eq!(surface.take_patches(), vec![]);
    diff::diff_widget(&mut surface, &a, &b);
    assert_eq!(surface.take_patches(), vec![Patch::ReplaceNode { node: 4, by: 7 }]);
}

#[test]
fn diff_element_reconciles_listeners() {
    let mut surface = Surface::new();
    let from = mounted(
        &mut surface,
        Element::new("button").on("click", 1).on_value("change", 2).on_event("keyup", 3).node(),
    );
    // handles: 0 the button, 1..=3 the three callbacks
    assert_eq!(surface.next_handle(), 4);
    let mut to = Element::new("button").on("click", 1).on("change", 2).on("focus", 5).node();
    diff::diff_node(&mut surface, "w", &from, &mut to);
    assert_eq!(
        surface.take_patches(),
        vec![
            Patch::AddListener {
                element: 0,
                event: s("change"),
                widget: s("w"),
                kind: ListenerKind::Factory(2),
                callback: 4,
            },
            Patch::RemoveListener { element: 0, event: s("keyup"), callback: 3 },
            Patch::AddListener {
                element: 0,
                event: s("focus"),
                widget: s("w"),
                kind: ListenerKind::Factory(5),
                callback: 5,
            },
        ]
    );
    match &to {
        Node::Element(el) => {
            assert_eq!(
                el.listeners,
                vec![
                    (s("click"), Listener { kind: ListenerKind::Factory(1), callback: None }),
                    (s("change"), Listener { kind: ListenerKind::Factory(2), callback: Some(4) }),
                    (s("focus"), Listener { kind: ListenerKind::Factory(5), callback: Some(5) }),
                ]
            );
        },
        _ => panic!("an element stays an element"),
    }
}

#[test]
fn listener_kinds_differ_unless_same_variant_and_callback() {
    assert!(!diff::listener_are_different(&ListenerKind::Factory(1), &ListenerKind::Factory(1)));
    assert!(diff::listener_are_different(&ListenerKind::Factory(1), &ListenerKind::Factory(2)));
    assert!(diff::listener_are_different(&ListenerKind::Factory(1), &ListenerKind::Valued(1)));
    assert!(!diff::listener_are_different(&ListenerKind::Evented(3), &ListenerKind::Evented(3)));
    assert!(diff::listener_are_different(&ListenerKind::Evented(3), &ListenerKind::Valued(3)));
    assert!(!diff::listener_are_different(&ListenerKind::Valued(7), &ListenerKind::Valued(7)));
}

#[test]
fn cannot_reconcile_against_an_undrawn_tree() {
    let from = Element::new("div").node();
    let to = Element::new("div").node();
    assert!(!diff::can_reconcile(&from, &to));
    let undrawn = text("x");
    assert!(!diff::can_reconcile(&undrawn, &to));
}

#[test]
fn cannot_reconcile_when_an_unbound_listener_has_to_go() {
    let mut surface = Surface::new();
    let mut from = Element::new("div").on("click", 1).node();
    draw::node(&mut surface, &mut from);
    let keeps = Element::new("div").on("click", 2).node();
    let drops = Element::new("div").node();
    assert!(diff::can_reconcile(&from, &keeps));
    assert!(!diff::can_reconcile(&from, &drops));
    listen(&mut surface, "w", &mut from);
    assert!(diff::can_reconcile(&from, &drops));
}
