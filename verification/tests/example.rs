use lollipop::action::Action;
use lollipop::events::ListenerKind;
use lollipop::example::{app, state, update, view, Msg, INCREASE_COUNT, INPUT_CHANGED};
use lollipop::nodes::{update_widget, Registry};
use lollipop::surface::{Patch, Surface};

fn s(text: &str) -> String {
    text.to_string()
}

#[test]
fn example_state_starts_empty() {
    let state = state();
    assert_eq!(state.count, 0);
    assert_eq!(state.input, "");
}

#[test]
fn example_update_takes_the_message_in() {
    let mut state = state();
    assert!(matches!(update::<()>(&mut state, &(), Msg::IncreaseCount()), Action::Diff));
    assert!(matches!(update::<()>(&mut state, &(), Msg::IncreaseCount()), Action::Diff));
    assert_eq!(state.count, 2);
    assert!(matches!(update::<()>(&mut state, &(), Msg::InputChanged(s("abc"))), Action::Diff));
    assert_eq!(state.input, "abc");
    assert_eq!(state.count, 2);
    state.count = usize::MAX;
    update::<()>(&mut state, &(), Msg::IncreaseCount());
    assert_eq!(state.count, usize::MAX);
}

#[test]
fn example_app_is_drawn_and_wired_once() {
    let mut registry = Registry::new();
    let mut surface = Surface::new();
    let widget = app(&mut registry, &mut surface).unwrap();
    assert_eq!(widget.name, "app");
    assert_eq!(widget.dom_node, 0);
    assert_eq!(
        surface.take_patches(),
        vec![
            Patch::CreateElement { handle: 0, tag: s("div") },
            Patch::CreateElement { handle: 1, tag: s("h1") },
            Patch::CreateText { handle: 2, data: s("Yoooo") },
            Patch::AppendChild { parent: 1, child: 2 },
            Patch::AppendChild { parent: 0, child: 1 },
            Patch::CreateElement { handle: 3, tag: s("input") },
            Patch::SetAttribute { element: 3, name: s("label"), value: s("cdhks") },
            Patch::AppendChild { parent: 0, child: 3 },
            Patch::AddListener {
                element: 0,
                event: s("click"),
                widget: s("app"),
                kind: ListenerKind::Factory(INCREASE_COUNT),
                callback: 4,
            },
            Patch::AddListener {
                element: 3,
                event: s("change"),
                widget: s("app"),
                kind: ListenerKind::Valued(INPUT_CHANGED),
                callback: 5,
            },
        ]
    );
    // a second construction finds the widget mounted with the same properties
    let again = app(&mut registry, &mut surface).unwrap();
    assert_eq!(again.dom_node, 0);
    assert_eq!(surface.take_patches(), vec![]);
    // the view does not show the state: a message renders the same tree
    let outcome = update_widget(&mut registry, &mut surface, "app", Msg::IncreaseCount(), update::<()>, view);
    assert_eq!(outcome, Ok(None));
    assert_eq!(surface.take_patches(), vec![]);
}
