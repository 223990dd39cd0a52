//! A small application: a counter that a click increases, beside an input
//! whose changes are kept.

use crate::action::Action;
use crate::api::{blank, div, h1, input};
use crate::events::{CallbackId, Listener, ListenerKind};
use crate::nodes::element::{inserted, ElementView};
use crate::nodes::node::{Node, NodeView};
use crate::nodes::text::{Text, TextView};
use crate::nodes::widget::Widget;
use crate::nodes::{constructed, failure, updated, Registry, RenderError};
use crate::surface::Surface;
use vstd::prelude::*;

verus! {

/// What the application remembers.
#[derive(Debug)]
pub struct State {
    pub count: usize,
    pub input: String,
}

/// What can happen to the application.
#[derive(Debug)]
pub enum Msg {
    IncreaseCount(),
    InputChanged(String),
}

/// The application takes no properties.
pub type Props = ();

/// The callback that takes nothing and produces `Msg::IncreaseCount`.
pub const INCREASE_COUNT: CallbackId = 0;

/// The callback that takes a value and produces `Msg::InputChanged`.
pub const INPUT_CHANGED: CallbackId = 0;

/// Constructs the application under the name `app`, or updates it.
pub fn app(registry: &mut Registry<State, Props>, surface: &mut Surface) -> (result: Result<Widget, RenderError>)
    requires
        old(registry).wf(),
    ensures
        final(registry).wf(),
        final(registry).same_but(old(registry), "app"@),
        result is Ok ==> final(registry).has("app"@),
        !old(registry).has("app"@) ==> exists|made: State, tree: Node|
            {
                &&& made.count == 0
                &&& made.input@ == Seq::<char>::empty()
                &&& #[trigger] call_ensures(view, (&made, &()), tree)
                &&& constructed(
                    "app"@,
                    made,
                    (),
                    tree@,
                    old(surface)@,
                    failure(result),
                    final(registry),
                    final(surface)@,
                )
            },
        old(registry).has("app"@) ==> {
            ||| {
                &&& result is Ok
                &&& final(registry).record("app"@) == old(registry).record("app"@)
                &&& final(surface)@ == old(surface)@
            }
            ||| exists|tree: Node|
                {
                    &&& #[trigger] call_ensures(view, (&old(registry).record("app"@).state, &()), tree)
                    &&& updated(
                        old(registry).record("app"@),
                        "app"@,
                        (),
                        tree@,
                        old(surface)@,
                        failure(result),
                        final(registry).record("app"@),
                        final(surface)@,
                    )
                }
        },
{
    Widget::new(registry, surface, "app", (), state, view)
}

/// The state that the application starts in.
pub fn state() -> (state: State)
    ensures
        state.count == 0,
        state.input@ == Seq::<char>::empty(),
{
    State { count: 0, input: String::new() }
}

/// Takes `msg` into the state, and asks for the tree to be rendered again.
/// The count stops at the largest `usize`.
pub fn update<T>(state: &mut State, _props: &Props, msg: Msg) -> (action: Action<T>)
    ensures
        action is Diff,
        match msg {
            Msg::IncreaseCount() => {
                &&& final(state).count == if old(state).count < usize::MAX {
                    old(state).count + 1
                } else {
                    usize::MAX as int
                }
                &&& final(state).input == old(state).input
            },
            Msg::InputChanged(v) => final(state).count == old(state).count && final(state).input == v,
        },
{
    match msg {
        Msg::IncreaseCount() => {
            if state.count < usize::MAX {
                state.count += 1;
            }
            Action::Diff
        },
        Msg::InputChanged(v) => {
            state.input = v;
            Action::Diff
        },
    }
}

/// The tree of the application, undrawn.
pub open spec fn rendered() -> NodeView {
    let heading = ElementView {
        children: seq![NodeView::Text(TextView { val: "Yoooo"@, handle: None })],
        ..blank("h1"@)
    };
    let field = ElementView {
        attrs: inserted(Seq::empty(), "label"@, "cdhks"@),
        listeners: inserted(
            Seq::empty(),
            "change"@,
            Listener { kind: ListenerKind::Valued(INPUT_CHANGED), callback: None },
        ),
        ..blank("input"@)
    };
    NodeView::Element(
        ElementView {
            children: seq![NodeView::Element(heading), NodeView::Element(field)],
            listeners: inserted(
                Seq::empty(),
                "click"@,
                Listener { kind: ListenerKind::Factory(INCREASE_COUNT), callback: None },
            ),
            ..blank("div"@)
        },
    )
}

/// The tree of the application: a heading and a labelled input, in a
/// container that listens to clicks.
pub fn view(_state: &State, _props: &Props) -> (tree: Node)
    ensures
        tree@ == rendered(),
{
    let heading = h1().child(Text::new("Yoooo").node());
    let field = input().on_value("change", INPUT_CHANGED).attr("label", "cdhks");
    let tree = div().on("click", INCREASE_COUNT).child(heading.node()).child(field.node()).node();
    proof {
        let text = NodeView::Text(TextView { val: "Yoooo"@, handle: None });
        assert(Seq::<NodeView>::empty().push(text) =~= seq![text]);
        assert(tree@->Element_0.children =~= rendered()->Element_0.children);
    }
    tree
}

} // verus!
