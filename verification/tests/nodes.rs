use lollipop::api;
use lollipop::events::{add_event_listener, listen, Listener, ListenerKind};
use lollipop::draw;
use lollipop::keyed;
use lollipop::nodes::element::Element;
use lollipop::nodes::node::{capped_sum, Node};
use lollipop::nodes::text::Text;
use lollipop::nodes::widget::Widget;
use lollipop::patch;
use lollipop::surface::{Patch, Surface};

fn s(text: &str) -> String {
    text.to_string()
}

#[test]
fn element_new_is_blank() {
    let el = Element::new("div");
    assert_eq!(el.tag, "div");
    assert!(el.attrs.is_empty());
    assert!(el.children.is_empty());
    assert!(el.listeners.is_empty());
    assert_eq!(el.dom_element, None);
}

#[test]
fn attr_replaces_an_attribute_of_the_same_name() {
    let el = Element::new("div").attr("a", "1").attr("b", "2").attr("a", "3");
    assert_eq!(el.attrs, vec![(s("a"), s("3")), (s("b"), s("2"))]);
}

#[test]
fn listeners_are_kept_by_event() {
    let el = Element::new("input").on("click", 1).on_value("change", 2).on_event("keyup", 3).on_value("click", 4);
    assert_eq!(
        el.listeners,
        vec![
            (s("click"), Listener { kind: ListenerKind::Valued(4), callback: None }),
            (s("change"), Listener { kind: ListenerKind::Valued(2), callback: None }),
            (s("keyup"), Listener { kind: ListenerKind::Evented(3), callback: None }),
        ]
    );
    let el = Element::new("input").on_listener_kind("x", ListenerKind::Factory(9));
    assert_eq!(el.listeners, vec![(s("x"), Listener { kind: ListenerKind::Factory(9), callback: None })]);
}

#[test]
fn child_appends_in_order() {
    let el = Element::new("div").child(Text::new("a").node()).child(Element::new("p").node());
    assert_eq!(el.children.len(), 2);
    assert!(matches!(&el.children[0], Node::Text(t) if t.val == "a"));
    assert!(matches!(&el.children[1], Node::Element(e) if e.tag == "p"));
}

#[test]
fn nodes_from_their_parts() {
    assert!(matches!(Node::from(Element::new("a")), Node::Element(_)));
    assert!(matches!(Node::from(Text::new("a")), Node::Text(_)));
    assert!(matches!(Node::from(Widget { name: s("w"), dom_node: 3 }), Node::Widget(_)));
    assert!(matches!(Node::from(s("hey")), Node::Text(t) if t.val == "hey" && t.dom_text_node.is_none()));
    assert!(matches!(Widget { name: s("w"), dom_node: 3 }.node(), Node::Widget(w) if w.dom_node == 3));
}

#[test]
fn dom_node_is_the_handle_once_drawn() {
    let mut surface = Surface::new();
    let mut node = Element::new("div").node();
    assert_eq!(node.dom_node(), None);
    assert_eq!(Text::new("x").node().dom_node(), None);
    assert_eq!(Widget { name: s("w"), dom_node: 3 }.node().dom_node(), Some(3));
    draw::node(&mut surface, &mut node);
    assert_eq!(node.dom_node(), Some(0));
}

#[test]
fn element_of_a_node_can_be_changed() {
    let mut node = Element::new("div").node();
    node.element().tag = s("span");
    assert!(matches!(&node, Node::Element(e) if e.tag == "span"));
}

#[test]
fn attach_appends_to_the_given_parent() {
    let mut surface = Surface::new();
    let mut node = Text::new("x").node();
    draw::node(&mut surface, &mut node);
    surface.take_patches();
    node.attach_borrow(&mut surface, 77);
    let node = node.attach(&mut surface, 78);
    assert_eq!(node.dom_node(), Some(0));
    assert_eq!(
        surface.take_patches(),
        vec![Patch::AppendChild { parent: 77, child: 0 }, Patch::AppendChild { parent: 78, child: 0 }]
    );
}

#[test]
fn budget_counts_elements_texts_and_listeners() {
    let node = Element::new("div")
        .on("click", 1)
        .child(Text::new("a").node())
        .child(Element::new("p").on("x", 1).on("y", 2).node())
        .child(Widget { name: s("w"), dom_node: 3 }.node())
        .node();
    assert_eq!(node.budget(), 6);
    assert_eq!(Text::new("a").node().budget(), 1);
    assert_eq!(Widget { name: s("w"), dom_node: 3 }.node().budget(), 0);
    assert_eq!(capped_sum(u64::MAX - 1, 5), u64::MAX);
    assert_eq!(capped_sum(2, 5), 7);
}

#[test]
fn draw_widget_reference_is_a_no_op() {
    let mut surface = Surface::new();
    let mut node = Element::new("div").child(Widget { name: s("w"), dom_node: 30 }.node()).node();
    draw::node(&mut surface, &mut node);
    assert_eq!(
        surface.take_patches(),
        vec![Patch::CreateElement { handle: 0, tag: s("div") }, Patch::AppendChild { parent: 0, child: 30 }]
    );
}

#[test]
fn draw_element_directly() {
    let mut surface = Surface::starting_at(10);
    let mut el = Element::new("p").child(Text::new("x").node());
    draw::element(&mut surface, &mut el);
    assert_eq!(el.dom_element, Some(10));
    assert_eq!(el.children[0].dom_node(), Some(11));
}

#[test]
fn listen_binds_every_listener_of_every_element() {
    let mut surface = Surface::new();
    let mut node = Element::new("div")
        .on("click", 1)
        .on_value("change", 2)
        .child(Text::new("t").node())
        .child(Element::new("p").on_event("keyup", 3).node())
        .child(Widget { name: s("other"), dom_node: 50 }.node())
        .node();
    draw::node(&mut surface, &mut node);
    surface.take_patches();
    assert_eq!(surface.next_handle(), 3);
    listen(&mut surface, "app", &mut node);
    assert_eq!(
        surface.take_patches(),
        vec![
            Patch::AddListener {
                element: 0,
                event: s("click"),
                widget: s("app"),
                kind: ListenerKind::Factory(1),
                callback: 3,
            },
            Patch::AddListener {
                element: 0,
                event: s("change"),
                widget: s("app"),
                kind: ListenerKind::Valued(2),
                callback: 4,
            },
            Patch::AddListener {
                element: 2,
                event: s("keyup"),
                widget: s("app"),
                kind: ListenerKind::Evented(3),
                callback: 5,
            },
        ]
    );
    match &node {
        Node::Element(el) => {
            assert_eq!(el.listeners[0].1.callback, Some(3));
            assert_eq!(el.listeners[1].1.callback, Some(4));
        },
        _ => panic!("an element stays an element"),
    }
}

#[test]
fn add_event_listener_remembers_the_callback() {
    let mut surface = Surface::starting_at(8);
    let mut listener = Listener { kind: ListenerKind::Valued(5), callback: None };
    add_event_listener(&mut surface, "w", "change", &mut listener, 4);
    assert_eq!(listener, Listener { kind: ListenerKind::Valued(5), callback: Some(8) });
    assert_eq!(
        surface.take_patches(),
        vec![Patch::AddListener {
            element: 4,
            event: s("change"),
            widget: s("w"),
            kind: ListenerKind::Valued(5),
            callback: 8,
        }]
    );
    assert_eq!(surface.next_handle(), 9);
}

#[test]
fn patch_primitives_record_one_mutation_each() {
    let mut surface = Surface::new();
    patch::replace_node(&mut surface, 1, 2);
    patch::set_attribute(&mut surface, 3, "a", "b");
    patch::remove_attribute(&mut surface, 3, "a");
    patch::set_text_data(&mut surface, 4, "t");
    let mut listener = Listener { kind: ListenerKind::Factory(1), callback: None };
    patch::set_listener(&mut surface, "w", 3, "click", &mut listener);
    patch::remove_listener(&mut surface, 3, "click", &listener);
    assert_eq!(surface.pending_len(), 6);
    assert_eq!(surface.pending(0), &Patch::ReplaceNode { node: 1, by: 2 });
    assert_eq!(
        surface.take_patches(),
        vec![
            Patch::ReplaceNode { node: 1, by: 2 },
            Patch::SetAttribute { element: 3, name: s("a"), value: s("b") },
            Patch::RemoveAttribute { element: 3, name: s("a") },
            Patch::SetTextData { text: 4, data: s("t") },
            Patch::AddListener {
                element: 3,
                event: s("click"),
                widget: s("w"),
                kind: ListenerKind::Factory(1),
                callback: 0,
            },
            Patch::RemoveListener { element: 3, event: s("click"), callback: 0 },
        ]
    );
    assert_eq!(surface.pending_len(), 0);
}

#[test]
fn patch_children_at_the_tail() {
    let mut surface = Surface::new();
    patch::add_children(&mut surface, 9, &vec![4, 5, 6]);
    patch::remove_children(&mut surface, 9, 2);
    patch::add_children(&mut surface, 9, &vec![]);
    patch::remove_children(&mut surface, 9, 0);
    assert_eq!(
        surface.take_patches(),
        vec![
            Patch::AppendChild { parent: 9, child: 4 },
            Patch::AppendChild { parent: 9, child: 5 },
            Patch::AppendChild { parent: 9, child: 6 },
            Patch::RemoveLastChild { parent: 9 },
            Patch::RemoveLastChild { parent: 9 },
        ]
    );
}

#[test]
fn surface_gives_out_handles_in_order() {
    let mut surface = Surface::new();
    assert_eq!(surface.allocate(), 0);
    assert_eq!(surface.allocate(), 1);
    assert_eq!(surface.next_handle(), 2);
    assert_eq!(surface.room(), u64::MAX - 2);
    surface.record(Patch::AttachToRoot { node: 1 });
    assert_eq!(surface.take_patches(), vec![Patch::AttachToRoot { node: 1 }]);
    assert_eq!(surface.next_handle(), 2);
}

#[test]
fn find_gives_the_first_entry_under_a_key() {
    let entries = vec![(s("a"), 1), (s("b"), 2), (s("a"), 3)];
    assert_eq!(keyed::find(&entries, &s("a")), Some(0));
    assert_eq!(keyed::find(&entries, &s("b")), Some(1));
    assert_eq!(keyed::find(&entries, &s("c")), None);
}

#[test]
fn tags_make_blank_elements() {
    assert_eq!(api::div().tag, "div");
    assert_eq!(api::p().tag, "p");
    assert_eq!(api::h1().tag, "h1");
    assert_eq!(api::h2().tag, "h2");
    assert_eq!(api::h3().tag, "h3");
    assert_eq!(api::h4().tag, "h4");
    assert_eq!(api::h5().tag, "h5");
    assert_eq!(api::h6().tag, "h6");
    assert_eq!(api::h7().tag, "h7");
    assert_eq!(api::img().tag, "img");
    assert_eq!(api::a().tag, "a");
    assert_eq!(api::button().tag, "button");
    assert_eq!(api::input().tag, "input");
    assert_eq!(api::form().tag, "form");
    assert_eq!(api::object().tag, "object");
    assert!(api::div().attrs.is_empty());
}
