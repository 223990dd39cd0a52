use lollipop::diff;
use lollipop::draw;
use lollipop::events::listen;
use lollipop::nodes::element::Element;
use lollipop::nodes::node::Node;
use lollipop::nodes::text::Text;
use lollipop::surface::{Patch, Surface};
use std::collections::HashMap;

/// An object of a display that the tests keep.
#[derive(Debug, PartialEq)]
enum Shown {
    Container { tag: String, attrs: HashMap<String, String>, children: Vec<u64> },
    Text { data: String },
}

type Display = HashMap<u64, Shown>;

/// Applies `patch` as a document would.
fn apply(display: &mut Display, patch: &Patch) {
    match patch {
        Patch::CreateElement { handle, tag } => {
            display.insert(
                *handle,
                Shown::Container { tag: tag.clone(), attrs: HashMap::new(), children: Vec::new() },
            );
        },
        Patch::CreateText { handle, data } => {
            display.insert(*handle, Shown::Text { data: data.clone() });
        },
        Patch::ReplaceNode { node, by } => {
            for shown in display.values_mut() {
                if let Shown::Container { children, .. } = shown {
                    for child in children.iter_mut() {
                        if *child == *node {
                            *child = *by;
                        }
                    }
                }
            }
        },
        Patch::SetAttribute { element, name, value } => {
            if let Some(Shown::Container { attrs, .. }) = display.get_mut(element) {
                attrs.insert(name.clone(), value.clone());
            }
        },
        Patch::RemoveAttribute { element, name } => {
            if let Some(Shown::Container { attrs, .. }) = display.get_mut(element) {
                attrs.remove(name);
            }
        },
        Patch::AppendChild { parent, child } => {
            if let Some(Shown::Container { children, .. }) = display.get_mut(parent) {
                children.push(*child);
            }
        },
        Patch::RemoveLastChild { parent } => {
            if let Some(Shown::Container { children, .. }) = display.get_mut(parent) {
                children.pop();
            }
        },
        Patch::SetTextData { text, data } => {
            if let Some(Shown::Text { data: shown }) = display.get_mut(text) {
                *shown = data.clone();
            }
        },
        Patch::AddListener { .. } | Patch::RemoveListener { .. } | Patch::AttachToRoot { .. } => {},
    }
}

fn flush(display: &mut Display, surface: &mut Surface) {
    for patch in surface.take_patches() {
        apply(display, &patch);
    }
}

/// Whether `display` shows the drawn tree `node`.
fn shows(display: &Display, node: &Node) -> bool {
    match node {
        Node::Element(el) => {
            let attrs: HashMap<String, String> = el.attrs.iter().cloned().collect();
            let children: Vec<u64> = el.children.iter().filter_map(|child| child.dom_node()).collect();
            children.len() == el.children.len()
                && el.dom_element.and_then(|handle| display.get(&handle))
                    == Some(&Shown::Container { tag: el.tag.clone(), attrs, children })
                && el.children.iter().all(|child| shows(display, child))
        },
        Node::Text(txt) => {
            txt.dom_text_node.and_then(|handle| display.get(&handle)) == Some(&Shown::Text { data: txt.val.clone() })
        },
        Node::Widget(_) => true,
    }
}

fn text(value: &str) -> Node {
    Text::new(value).node()
}

fn page(version: u32) -> Node {
    match version {
        0 => Element::new("div")
            .attr("a", "1")
            .attr("b", "2")
            .child(Element::new("h1").child(text("title")).node())
            .child(text("body"))
            .child(Element::new("ul").child(Element::new("li").child(text("one")).node()).node())
            .node(),
        1 => Element::new("div")
            .attr("b", "3")
            .attr("c", "4")
            .child(Element::new("h2").attr("x", "y").child(text("title")).node())
            .child(Element::new("p").child(text("now an element")).node())
            .child(
                Element::new("ul")
                    .child(Element::new("li").child(text("uno")).node())
                    .child(Element::new("li").child(text("dos")).node())
                    .child(text("tres"))
                    .node(),
            )
            .child(text("tail"))
            .node(),
        2 => Element::new("div").attr("c", "4").child(text("alone")).node(),
        3 => text("only a text"),
        _ => Element::new("section").child(page(1)).child(page(0)).node(),
    }
}

#[test]
fn reconciling_listeners_changes_nothing_that_is_shown() {
    let mut display = Display::new();
    let mut surface = Surface::new();
    let mut shown = Element::new("button").on("click", 1).on_value("change", 2).child(text("go")).node();
    draw::node(&mut surface, &mut shown);
    listen(&mut surface, "w", &mut shown);
    flush(&mut display, &mut surface);
    let mut next = Element::new("button").on("click", 3).on("focus", 4).child(text("go")).node();
    diff::diff_node(&mut surface, "w", &shown, &mut next);
    assert_eq!(surface.pending_len(), 3);
    let before = format!("{:?}", display.get(&0));
    flush(&mut display, &mut surface);
    assert_eq!(format!("{:?}", display.get(&0)), before);
    assert!(shows(&display, &next));
}

#[test]
fn drawing_makes_the_display_show_the_tree() {
    for version in 0..5 {
        let mut display = Display::new();
        let mut surface = Surface::starting_at(10);
        let mut tree = page(version);
        assert!(!shows(&display, &tree));
        draw::node(&mut surface, &mut tree);
        flush(&mut display, &mut surface);
        assert!(shows(&display, &tree), "version {}", version);
        listen(&mut surface, "w", &mut tree);
        flush(&mut display, &mut surface);
        assert!(shows(&display, &tree), "version {}", version);
    }
}

#[test]
fn reconciling_makes_the_display_show_the_new_tree() {
    for first in 0..5 {
        for second in 0..5 {
            for third in 0..5 {
                let mut display = Display::new();
                let mut surface = Surface::new();
                // a container that the host supplies, with the tree as its child
                let root = surface.allocate();
                display.insert(
                    root,
                    Shown::Container { tag: "body".to_string(), attrs: HashMap::new(), children: Vec::new() },
                );
                let mut shown = page(first);
                draw::node(&mut surface, &mut shown);
                listen(&mut surface, "w", &mut shown);
                shown.attach_borrow(&mut surface, root);
                flush(&mut display, &mut surface);
                for version in [second, third] {
                    let mut next = page(version);
                    assert!(diff::can_reconcile(&shown, &next));
                    diff::diff_node(&mut surface, "w", &shown, &mut next);
                    flush(&mut display, &mut surface);
                    assert!(shows(&display, &next), "{} {} {} at {}", first, second, third, version);
                    assert_eq!(
                        display.get(&root),
                        Some(&Shown::Container {
                            tag: "body".to_string(),
                            attrs: HashMap::new(),
                            children: vec![next.dom_node().unwrap()],
                        })
                    );
                    shown = next;
                }
            }
        }
    }
}
