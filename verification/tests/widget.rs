use lollipop::action::Action;
use lollipop::api;
use lollipop::events::ListenerKind;
use lollipop::nodes::element::Element;
use lollipop::nodes::node::Node;
use lollipop::nodes::text::Text;
use lollipop::nodes::widget::Widget;
use lollipop::nodes::{update_widget, Registry, RenderError};
use lollipop::surface::{Patch, Surface};

struct Counter {
    count: usize,
}

enum Msg {
    Increment,
    Touch,
    Later,
}

fn state() -> Counter {
    Counter { count: 0 }
}

fn update(state: &mut Counter, _props: &u32, msg: Msg) -> Action<u8> {
    match msg {
        Msg::Increment => {
            state.count += 1;
            Action::Diff
        },
        Msg::Touch => Action::Nothing,
        Msg::Later => Action::Async(42),
    }
}

fn view(state: &Counter, props: &u32) -> Node {
    Element::new("div")
        .attr("step", &props.to_string())
        .on("click", 1)
        .child(Text::new(&state.count.to_string()).node())
        .node()
}

fn s(text: &str) -> String {
    text.to_string()
}

fn mount_patches() -> Vec<Patch> {
    vec![
        Patch::CreateElement { handle: 0, tag: s("div") },
        Patch::SetAttribute { element: 0, name: s("step"), value: s("1") },
        Patch::CreateText { handle: 1, data: s("0") },
        Patch::AppendChild { parent: 0, child: 1 },
        Patch::AddListener {
            element: 0,
            event: s("click"),
            widget: s("counter"),
            kind: ListenerKind::Factory(1),
            callback: 2,
        },
    ]
}

#[test]
fn first_construction_draws_and_wires_the_tree() {
    let mut registry: Registry<Counter, u32> = Registry::new();
    let mut surface = Surface::new();
    assert!(!registry.contains("counter"));
    let widget = Widget::new(&mut registry, &mut surface, "counter", 1, state, view).unwrap();
    assert_eq!(widget.name, "counter");
    assert_eq!(widget.dom_node, 0);
    assert!(registry.contains("counter"));
    assert_eq!(surface.take_patches(), mount_patches());
    assert_eq!(surface.next_handle(), 3);
}

#[test]
fn dispatching_increment_patches_the_text() {
    let mut registry: Registry<Counter, u32> = Registry::new();
    let mut surface = Surface::new();
    Widget::new(&mut registry, &mut surface, "counter", 1, state, view).unwrap();
    surface.take_patches();
    let outcome = update_widget(&mut registry, &mut surface, "counter", Msg::Increment, update, view);
    assert_eq!(outcome, Ok(None));
    assert_eq!(surface.take_patches(), vec![Patch::SetTextData { text: 1, data: s("1") }]);
    let outcome = update_widget(&mut registry, &mut surface, "counter", Msg::Increment, update, view);
    assert_eq!(outcome, Ok(None));
    assert_eq!(surface.take_patches(), vec![Patch::SetTextData { text: 1, data: s("2") }]);
}

#[test]
fn construction_with_equal_props_changes_nothing() {
    let mut registry: Registry<Counter, u32> = Registry::new();
    let mut surface = Surface::new();
    let first = Widget::new(&mut registry, &mut surface, "counter", 1, state, view).unwrap();
    surface.take_patches();
    let next = surface.next_handle();
    let second = Widget::new(&mut registry, &mut surface, "counter", 1, state, view).unwrap();
    assert_eq!(surface.take_patches(), vec![]);
    assert_eq!(surface.next_handle(), next);
    assert_eq!(second.name, first.name);
    assert_eq!(second.dom_node, first.dom_node);
}

#[test]
fn construction_with_other_props_reconciles() {
    let mut registry: Registry<Counter, u32> = Registry::new();
    let mut surface = Surface::new();
    Widget::new(&mut registry, &mut surface, "counter", 1, state, view).unwrap();
    update_widget(&mut registry, &mut surface, "counter", Msg::Increment, update, view).unwrap();
    surface.take_patches();
    let widget = Widget::new(&mut registry, &mut surface, "counter", 5, state, view).unwrap();
    assert_eq!(widget.dom_node, 0);
    // the state made at the first construction is kept: the count is still 1
    assert_eq!(surface.take_patches(), vec![Patch::SetAttribute { element: 0, name: s("step"), value: s("5") }]);
    // the new props are stored: the same props again change nothing
    Widget::new(&mut registry, &mut surface, "counter", 5, state, view).unwrap();
    assert_eq!(surface.take_patches(), vec![]);
}

#[test]
fn nothing_changes_nothing() {
    let mut registry: Registry<Counter, u32> = Registry::new();
    let mut surface = Surface::new();
    Widget::new(&mut registry, &mut surface, "counter", 1, state, view).unwrap();
    surface.take_patches();
    let outcome = update_widget(&mut registry, &mut surface, "counter", Msg::Touch, update, view);
    assert_eq!(outcome, Ok(None));
    assert_eq!(surface.take_patches(), vec![]);
}

#[test]
fn async_hands_the_task_out_once_and_its_message_comes_back() {
    let mut registry: Registry<Counter, u32> = Registry::new();
    let mut surface = Surface::new();
    Widget::new(&mut registry, &mut surface, "counter", 1, state, view).unwrap();
    surface.take_patches();
    let outcome = update_widget(&mut registry, &mut surface, "counter", Msg::Later, update, view);
    assert_eq!(outcome, Ok(Some(42)));
    assert_eq!(surface.take_patches(), vec![]);
    // the host waits for the task; the message that it ends in is delivered once
    let outcome = update_widget(&mut registry, &mut surface, "counter", Msg::Increment, update, view);
    assert_eq!(outcome, Ok(None));
    assert_eq!(surface.take_patches(), vec![Patch::SetTextData { text: 1, data: s("1") }]);
}

#[test]
fn settle_carries_out_each_action() {
    let mut registry: Registry<Counter, u32> = Registry::new();
    let mut surface = Surface::new();
    Widget::new(&mut registry, &mut surface, "counter", 1, state, view).unwrap();
    surface.take_patches();
    assert_eq!(registry.settle(&mut surface, "counter", Action::<u8>::Nothing, view), Ok(None));
    assert_eq!(registry.settle(&mut surface, "counter", Action::Async(7u8), view), Ok(Some(7)));
    assert_eq!(registry.settle(&mut surface, "counter", Action::<u8>::Diff, view), Ok(None));
    assert_eq!(surface.take_patches(), vec![]);
}

#[test]
fn two_widgets_keep_their_own_trees() {
    let mut registry: Registry<Counter, u32> = Registry::new();
    let mut surface = Surface::new();
    let a = Widget::new(&mut registry, &mut surface, "a", 1, state, view).unwrap();
    let b = Widget::new(&mut registry, &mut surface, "b", 1, state, view).unwrap();
    assert_eq!(a.dom_node, 0);
    assert_eq!(b.dom_node, 3);
    surface.take_patches();
    update_widget(&mut registry, &mut surface, "b", Msg::Increment, update, view).unwrap();
    assert_eq!(surface.take_patches(), vec![Patch::SetTextData { text: 4, data: s("1") }]);
    update_widget(&mut registry, &mut surface, "a", Msg::Increment, update, view).unwrap();
    assert_eq!(surface.take_patches(), vec![Patch::SetTextData { text: 1, data: s("1") }]);
    assert_eq!(registry.widget("a").map(|w| w.dom_node), Some(0));
    assert_eq!(registry.widget("b").map(|w| w.dom_node), Some(3));
    assert!(registry.widget("c").is_none());
}

fn view_with_listener(_state: &Counter, props: &u32) -> Node {
    if *props == 0 {
        Element::new("div").node()
    } else {
        Element::new("div").on("click", *props as u64).node()
    }
}

#[test]
fn rerender_refuses_a_tree_that_cannot_be_reconciled() {
    let mut registry: Registry<Counter, u32> = Registry::new();
    let mut surface = Surface::new();
    Widget::new(&mut registry, &mut surface, "w", 1, state, view_with_listener).unwrap();
    surface.take_patches();
    // the same listener again: it stays bound on the surface, and the new
    // tree does not know its callback
    let kept = Element::new("div").on("click", 1).node();
    assert_eq!(registry.rerender(&mut surface, "w", kept), Ok(()));
    assert_eq!(surface.take_patches(), vec![]);
    let dropped = Element::new("div").node();
    assert_eq!(registry.rerender(&mut surface, "w", dropped), Err(RenderError::Unreconcilable));
    assert_eq!(surface.take_patches(), vec![]);
    assert_eq!(
        Widget::new(&mut registry, &mut surface, "w", 0, state, view_with_listener).map(|w| w.dom_node),
        Err(RenderError::Unreconcilable)
    );
    assert_eq!(surface.take_patches(), vec![]);
}

#[test]
fn mount_refuses_when_handles_run_out() {
    let mut registry: Registry<Counter, u32> = Registry::new();
    // the tree of the counter takes three handles
    let mut surface = Surface::starting_at(u64::MAX - 2);
    let result = Widget::new(&mut registry, &mut surface, "counter", 1, state, view);
    assert_eq!(result.map(|w| w.dom_node), Err(RenderError::Exhausted));
    assert!(!registry.contains("counter"));
    assert_eq!(surface.take_patches(), vec![]);
    let mut surface = Surface::starting_at(u64::MAX - 3);
    let result = Widget::new(&mut registry, &mut surface, "counter", 1, state, view);
    assert_eq!(result.map(|w| w.dom_node), Ok(u64::MAX - 3));
    assert_eq!(surface.next_handle(), u64::MAX);
    assert_eq!(surface.room(), 0);
}

#[test]
fn rerender_refuses_when_handles_run_out() {
    let mut registry: Registry<Counter, u32> = Registry::new();
    let mut surface = Surface::starting_at(u64::MAX - 5);
    Widget::new(&mut registry, &mut surface, "counter", 1, state, view).unwrap();
    surface.take_patches();
    // two handles are left; the budgets of the two trees are three each
    let outcome = update_widget(&mut registry, &mut surface, "counter", Msg::Increment, update, view);
    assert_eq!(outcome, Err(RenderError::Exhausted));
    assert_eq!(surface.take_patches(), vec![]);
}

#[test]
fn run_attaches_the_widget_root() {
    let mut registry: Registry<Counter, u32> = Registry::new();
    let mut surface = Surface::new();
    let widget = Widget::new(&mut registry, &mut surface, "counter", 1, state, view).unwrap();
    surface.take_patches();
    api::run(&mut surface, widget);
    assert_eq!(surface.take_patches(), vec![Patch::AttachToRoot { node: 0 }]);
}
