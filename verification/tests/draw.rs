use lollipop::draw;
use lollipop::nodes::element::Element;
use lollipop::nodes::node::Node;
use lollipop::nodes::text::Text;
use lollipop::surface::{Patch, Surface};

fn patches(surface: &mut Surface) -> Vec<Patch> {
    surface.take_patches()
}

#[test]
fn draw_text_creates_one_text_object() {
    let mut surface = Surface::new();
    let mut node = Text::new("hello").node();
    draw::node(&mut surface, &mut node);
    assert_eq!(node.dom_node(), Some(0));
    assert_eq!(surface.next_handle(), 1);
    assert_eq!(patches(&mut surface), vec![Patch::CreateText { handle: 0, data: "hello".to_string() }]);
}

#[test]
fn draw_element_sets_attributes_then_appends_children_in_order() {
    let mut surface = Surface::new();
    let mut node: Node = Element::new("div")
        .attr("height", "1000px")
        .child(Element::new("h1").child(Text::new("Testje").node()).node())
        .child(Text::new("Klein dom boompje").node())
        .node();
    draw::node(&mut surface, &mut node);
    assert_eq!(node.dom_node(), Some(0));
    assert_eq!(
        patches(&mut surface),
        vec![
            Patch::CreateElement { handle: 0, tag: "div".to_string() },
            Patch::SetAttribute { element: 0, name: "height".to_string(), value: "1000px".to_string() },
            Patch::CreateElement { handle: 1, tag: "h1".to_string() },
            Patch::CreateText { handle: 2, data: "Testje".to_string() },
            Patch::AppendChild { parent: 1, child: 2 },
            Patch::AppendChild { parent: 0, child: 1 },
            Patch::CreateText { handle: 3, data: "Klein dom boompje".to_string() },
            Patch::AppendChild { parent: 0, child: 3 },
        ]
    );
    assert_eq!(surface.next_handle(), 4);
}
