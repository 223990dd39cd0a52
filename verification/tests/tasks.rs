use lollipop::action::Action;
use lollipop::nodes::element::Element;
use lollipop::nodes::node::Node;
use lollipop::nodes::text::Text;
use lollipop::nodes::widget::Widget;
use lollipop::nodes::{update_widget, Registry};
use lollipop::surface::{Patch, Surface};
use std::cell::RefCell;
use std::future::Future;
use std::pin::Pin;
use std::rc::Rc;
use wasm_rs_async_executor::single_threaded::{run, spawn};

type Task = Pin<Box<dyn Future<Output = Msg>>>;

#[derive(Debug, PartialEq)]
enum Msg {
    Fetch,
    Fetched(u32),
}

struct Model {
    value: u32,
    updates: u32,
}

fn state() -> Model {
    Model { value: 0, updates: 0 }
}

fn update(state: &mut Model, _props: &(), msg: Msg) -> Action<Task> {
    state.updates += 1;
    match msg {
        Msg::Fetch => Action::Async(Box::pin(async { Msg::Fetched(7) })),
        Msg::Fetched(value) => {
            state.value = value;
            Action::Diff
        },
    }
}

fn view(state: &Model, _props: &()) -> Node {
    Element::new("p")
        .child(Text::new(&state.value.to_string()).node())
        .child(Text::new(&state.updates.to_string()).node())
        .node()
}

struct Host {
    registry: Registry<Model, ()>,
    surface: Surface,
    delivered: Vec<String>,
}

fn dispatch(host: &Rc<RefCell<Host>>, msg: Msg) {
    let task = {
        let mut guard = host.borrow_mut();
        let this = &mut *guard;
        this.delivered.push(format!("{:?}", msg));
        update_widget(&mut this.registry, &mut this.surface, "w", msg, update, view).unwrap()
    };
    if let Some(task) = task {
        let host = host.clone();
        spawn(async move {
            let msg = task.await;
            dispatch(&host, msg);
        });
    }
}

#[test]
fn async_action_delivers_its_message_exactly_once() {
    let host = Rc::new(RefCell::new(Host { registry: Registry::new(), surface: Surface::new(), delivered: vec![] }));
    {
        let mut guard = host.borrow_mut();
        let this = &mut *guard;
        Widget::new(&mut this.registry, &mut this.surface, "w", (), state, view).unwrap();
        this.surface.take_patches();
    }
    dispatch(&host, Msg::Fetch);
    // the task is started, and nothing has changed yet
    assert_eq!(host.borrow().delivered, vec!["Fetch".to_string()]);
    assert_eq!(host.borrow_mut().surface.take_patches(), vec![]);
    run(None);
    assert_eq!(host.borrow().delivered, vec!["Fetch".to_string(), "Fetched(7)".to_string()]);
    assert_eq!(
        host.borrow_mut().surface.take_patches(),
        vec![
            Patch::SetTextData { text: 1, data: "7".to_string() },
            Patch::SetTextData { text: 2, data: "2".to_string() },
        ]
    );
    // the executor is at rest: running it again delivers nothing more
    run(None);
    assert_eq!(host.borrow().delivered.len(), 2);
    assert_eq!(host.borrow_mut().surface.take_patches(), vec![]);
}
