//! The virtual tree, and the registry of mounted widgets.

pub mod element;
pub mod node;
pub mod text;
pub mod widget;

use crate::action::Action;
use crate::diff;
use crate::diff::{diffed_node, reconcilable};
use crate::draw;
use crate::draw::drawn_node;
use crate::events;
use crate::events::listened_node;
use crate::laws::{
    lemma_diffed_is_drawn, lemma_diffed_within_budget, lemma_drawn_is_drawn, lemma_drawn_is_wirable,
    lemma_listened_is_drawn,
};
use crate::nodes::node::{capped_sum, Node, NodeView, Step};
use crate::nodes::widget::Widget;
use crate::surface::{Surface, SurfaceView};
use vstd::std_specs::cmp::PartialEqSpec;
use vstd::prelude::*;

verus! {

/// Why a rendered tree was not brought to the surface.
#[derive(Clone, Copy, Debug, PartialEq, Eq)]
pub enum RenderError {
    /// The stored tree lacks a handle that reconciling against the rendered
    /// tree asks it for.
    Unreconcilable,
    /// The surface cannot give out the handles that the trees' budgets
    /// call for.
    Exhausted,
}

/// What the registry keeps of one mounted widget.
pub struct Mounted<S, P> {
    pub name: String,
    /// The widget's state, made once and changed by its update function
    /// only.
    pub state: S,
    /// The properties that the widget was last given.
    pub props: P,
    /// The tree that the widget last rendered, as it stands on the surface.
    pub tree: Node,
}

/// The mathematical value of a [`Mounted`].
pub struct MountedView<S, P> {
    pub state: S,
    pub props: P,
    pub tree: NodeView,
}

/// The mounted widgets, by name.
pub struct Registry<S, P> {
    widgets: Vec<Mounted<S, P>>,
}

/// Whether the surface can give out `amount` handles, `amount` itself being
/// below the largest `u64`.
pub open spec fn fits(surface: SurfaceView, amount: nat) -> bool {
    amount < u64::MAX && surface.has_room(amount)
}

/// Mounting the rendered `tree` for the widget `name` when `next` is the
/// next free handle: the tree is drawn, then wired.
pub open spec fn mounted(name: Seq<char>, tree: NodeView, next: int) -> Step {
    let drawn = drawn_node(tree, next);
    let wired = listened_node(name, drawn.node, drawn.next);
    Step { node: wired.node, patches: drawn.patches + wired.patches, next: wired.next }
}

/// The error of `result`, if it holds one.
pub open spec fn failure<T>(result: Result<T, RenderError>) -> Option<RenderError> {
    match result {
        Ok(_) => None,
        Err(error) => Some(error),
    }
}

/// What bringing the rendered tree `to` of `widget` to the surface comes
/// to, when `from` is the stored tree: the error `failed`, if any, the tree
/// `stored` that is kept afterwards, and the surface `after`. A tree that
/// cannot be reconciled against the stored one is refused, and so is one
/// for which the surface cannot give out the handles of the two budgets;
/// then nothing changes. Otherwise the tree is reconciled and kept.
pub open spec fn rerendered(
    from: NodeView,
    widget: Seq<char>,
    to: NodeView,
    before: SurfaceView,
    failed: Option<RenderError>,
    stored: NodeView,
    after: SurfaceView,
) -> bool {
    if !reconcilable(from, to) {
        failed == Some(RenderError::Unreconcilable) && stored == from && after == before
    } else if !fits(before, from.budget() + to.budget()) {
        failed == Some(RenderError::Exhausted) && stored == from && after == before
    } else {
        &&& failed is None
        &&& stored == diffed_node(widget, from, to, before.next).node
        &&& after == before.advance(
            diffed_node(widget, from, to, before.next).patches,
            diffed_node(widget, from, to, before.next).next,
        )
    }
}

/// What the first construction of the widget `name` comes to, when its
/// state was made as `made` and rendered as `tree`: the error `failed`, if
/// any, the registry `registry` and the surface `after` that it leaves. The
/// widget is mounted if the surface can give out the handles of the tree's
/// budget; otherwise nothing changes.
pub open spec fn constructed<S, P>(
    name: Seq<char>,
    made: S,
    props: P,
    tree: NodeView,
    before: SurfaceView,
    failed: Option<RenderError>,
    registry: &Registry<S, P>,
    after: SurfaceView,
) -> bool {
    if fits(before, tree.budget()) {
        &&& failed is None
        &&& registry.has(name)
        &&& registry.record(name) == (MountedView { state: made, props, tree: mounted(name, tree, before.next).node })
        &&& after == before.advance(mounted(name, tree, before.next).patches, mounted(name, tree, before.next).next)
    } else {
        &&& failed == Some(RenderError::Exhausted)
        &&& !registry.has(name)
        &&& after == before
    }
}

/// What updating the mounted widget `name` with the other properties
/// `props` comes to, when `kept` is what was stored of it and its state was
/// rendered as `tree`: the error `failed`, if any, what is stored
/// afterwards, and the surface `after`. The state stays. The tree is
/// brought to the surface as [`rerendered`] says; if that was done, the
/// properties are stored with it.
pub open spec fn updated<S, P>(
    kept: MountedView<S, P>,
    name: Seq<char>,
    props: P,
    tree: NodeView,
    before: SurfaceView,
    failed: Option<RenderError>,
    stored: MountedView<S, P>,
    after: SurfaceView,
) -> bool {
    &&& rerendered(kept.tree, name, tree, before, failed, stored.tree, after)
    &&& stored.state == kept.state
    &&& stored.props == if failed is None {
        props
    } else {
        kept.props
    }
}

/// What carrying out `action` for the widget `widget` comes to, when
/// `state`, `props` and `from` are what is stored of it: the outcome
/// `result`, the tree `stored` that is kept afterwards, and the surface
/// `after`.
///
/// `Diff` renders the state with `view` and brings the tree to the surface.
/// `Nothing` changes nothing. `Async` changes nothing either and hands the
/// task out: `result` holds it, once.
pub open spec fn settled<S, P, T, V: Fn(&S, &P) -> Node>(
    action: Action<T>,
    view: V,
    widget: Seq<char>,
    state: S,
    props: P,
    from: NodeView,
    before: SurfaceView,
    result: Result<Option<T>, RenderError>,
    stored: NodeView,
    after: SurfaceView,
) -> bool {
    match action {
        Action::Diff => exists|tree: Node|
            {
                &&& #[trigger] call_ensures(view, (&state, &props), tree)
                &&& rerendered(from, widget, tree@, before, failure(result), stored, after)
                &&& result is Ok ==> result == Ok::<Option<T>, RenderError>(None)
            },
        Action::Nothing => result == Ok::<Option<T>, RenderError>(None) && stored == from && after == before,
        Action::Async(task) => result == Ok::<Option<T>, RenderError>(Some(task)) && stored == from && after
            == before,
    }
}

impl<S, P> Registry<S, P> {
    /// The names of the mounted widgets, in the order of their mounting.
    pub closed spec fn names(&self) -> Seq<Seq<char>> {
        self.widgets@.map_values(|m: Mounted<S, P>| m.name@)
    }

    /// What is kept of the widgets, in the order of their mounting.
    pub closed spec fn records(&self) -> Seq<MountedView<S, P>> {
        self.widgets@.map_values(
            |m: Mounted<S, P>| MountedView { state: m.state, props: m.props, tree: m.tree@ },
        )
    }

    /// Whether a widget is mounted under `name`.
    pub open spec fn has(&self, name: Seq<char>) -> bool {
        self.names().contains(name)
    }

    /// What is kept of the widget `name`.
    pub open spec fn record(&self, name: Seq<char>) -> MountedView<S, P> {
        self.records()[self.names().index_of(name)]
    }

    /// Whether the registry is well formed: no two widgets share a name,
    /// and every stored tree is drawn.
    pub open spec fn wf(&self) -> bool {
        &&& self.names().no_duplicates()
        &&& self.names().len() == self.records().len()
        &&& forall|i: int| 0 <= i < self.records().len() ==> (#[trigger] self.records()[i]).tree.drawn()
    }

    /// Whether `other` is this registry but for the widget `name`.
    pub open spec fn same_but(&self, other: &Registry<S, P>, name: Seq<char>) -> bool {
        forall|n: Seq<char>|
            n != name ==> (self.has(n) == #[trigger] other.has(n)) && (self.has(n) ==> self.record(n)
                == other.record(n))
    }

    /// A registry without widgets.
    pub fn new() -> (registry: Registry<S, P>)
        ensures
            registry.wf(),
            forall|name: Seq<char>| !registry.has(name),
    {
        let registry = Registry { widgets: Vec::new() };
        assert(registry.names() =~= Seq::empty());
        assert(registry.records() =~= Seq::empty());
        registry
    }

    /// The place of the widget `name` among the mounted ones.
    fn find(&self, name: &str) -> (found: Option<usize>)
        requires
            self.wf(),
        ensures
            match found {
                Some(i) => self.has(name@) && i < self.widgets.len() && self.names().index_of(name@) == i
                    && self.widgets[i as int].name@ == name@,
                None => !self.has(name@),
            },
    {
        let key = name.to_owned();
        let mut i: usize = 0;
        while i < self.widgets.len()
            invariant
                i <= self.widgets.len(),
                self.wf(),
                key@ == name@,
                forall|k: int| 0 <= k < i ==> self.names()[k] != name@,
            decreases self.widgets.len() - i,
        {
            if self.widgets[i].name == key {
                proof {
                    assert(self.names()[i as int] == name@);
                    let j = self.names().index_of(name@);
                    assert(self.names()[j] == name@);
                }
                return Some(i);
            }
            i += 1;
        }
        None
    }

    /// Mounts a widget under `name`: the rendered `tree` is drawn and
    /// wired, and kept with `state` and `props`. Nothing happens if the
    /// surface cannot give out the handles of the tree's budget.
    pub fn mount(&mut self, surface: &mut Surface, name: &str, state: S, props: P, tree: Node) -> (result: Result<
        Widget,
        RenderError,
    >)
        requires
            old(self).wf(),
            !old(self).has(name@),
        ensures
            final(self).wf(),
            final(self).same_but(old(self), name@),
            match result {
                Ok(widget) => {
                    &&& fits(old(surface)@, tree@.budget())
                    &&& final(self).has(name@)
                    &&& final(self).record(name@) == (MountedView {
                        state,
                        props,
                        tree: mounted(name@, tree@, old(surface)@.next).node,
                    })
                    &&& final(surface)@ == old(surface)@.advance(
                        mounted(name@, tree@, old(surface)@.next).patches,
                        mounted(name@, tree@, old(surface)@.next).next,
                    )
                    &&& widget.name@ == name@
                    &&& Some(widget.dom_node) == mounted(name@, tree@, old(surface)@.next).node.handle()
                },
                Err(error) => {
                    &&& error == RenderError::Exhausted
                    &&& !fits(old(surface)@, tree@.budget())
                    &&& !final(self).has(name@)
                    &&& final(surface)@ == old(surface)@
                },
            },
    {
        let budget = tree.budget();
        if budget == u64::MAX || budget > surface.room() {
            proof {
                surface.lemma_next_in_range();
                assert(self.same_but(old(self), name@));
            }
            return Err(RenderError::Exhausted);
        }
        let mut tree = tree;
        let ghost rendered = tree@;
        let ghost start = surface@.next;
        proof {
            surface.lemma_next_in_range();
            draw::lemma_drawn_next(rendered, start);
            lemma_drawn_is_drawn(rendered, start);
            lemma_drawn_is_wirable(drawn_node(rendered, start).node);
            lemma_listened_is_drawn(name@, drawn_node(rendered, start).node, drawn_node(rendered, start).next);
        }
        draw::node(surface, &mut tree);
        events::listen(surface, name, &mut tree);
        proof {
            let goal = mounted(name@, rendered, start);
            assert(surface@.pending =~= old(surface)@.pending + goal.patches);
        }
        match tree.dom_node() {
            Some(dom_node) => {
                let ghost before = self.names();
                let ghost kept = self.records();
                self.widgets.push(Mounted { name: name.to_owned(), state, props, tree });
                proof {
                    assert(self.names() =~= before.push(name@));
                    assert(self.records() =~= kept.push(
                        MountedView { state, props, tree: mounted(name@, rendered, start).node },
                    ));
                    assert(self.names()[before.len() as int] == name@);
                    assert(self.has(name@));
                    let at = self.names().index_of(name@);
                    assert(self.names()[at] == name@);
                    assert(at == before.len());
                    assert forall|n: Seq<char>| n != name@ implies (self.has(n) == #[trigger] old(self).has(n))
                        && (self.has(n) ==> self.record(n) == old(self).record(n)) by {
                        if old(self).has(n) {
                            let k = before.index_of(n);
                            assert(self.names()[k] == n);
                        }
                        if self.has(n) {
                            let j = self.names().index_of(n);
                            assert(before[j] == n);
                            let k = before.index_of(n);
                            assert(self.names()[k] == n);
                        }
                    }
                }
                Ok(Widget { name: name.to_owned(), dom_node })
            },
            None => vstd::pervasive::unreached(),
        }
    }

    /// Brings the newly rendered `tree` of the widget `name` to the
    /// surface: it is reconciled against the stored tree and stored in its
    /// place. Nothing happens if it cannot be reconciled, or if the surface
    /// cannot give out the handles of the two trees' budgets.
    pub fn rerender(&mut self, surface: &mut Surface, name: &str, tree: Node) -> (result: Result<(), RenderError>)
        requires
            old(self).wf(),
            old(self).has(name@),
        ensures
            final(self).wf(),
            final(self).names() == old(self).names(),
            final(self).same_but(old(self), name@),
            final(self).has(name@),
            final(self).record(name@).state == old(self).record(name@).state,
            final(self).record(name@).props == old(self).record(name@).props,
            rerendered(
                old(self).record(name@).tree,
                name@,
                tree@,
                old(surface)@,
                failure(result),
                final(self).record(name@).tree,
                final(surface)@,
            ),
    {
        match self.find(name) {
            Some(i) => {
                let ghost stored = self.widgets[i as int].tree@;
                let ghost names = self.names();
                let ghost records = self.records();
                assert(self.record(name@) == records[i as int]);
                if !diff::can_reconcile(&self.widgets[i].tree, &tree) {
                    assert(self.same_but(old(self), name@));
                    return Err(RenderError::Unreconcilable);
                }
                let budget = capped_sum(self.widgets[i].tree.budget(), tree.budget());
                if budget == u64::MAX || budget > surface.room() {
                    proof {
                        surface.lemma_next_in_range();
                        assert(self.same_but(old(self), name@));
                    }
                    return Err(RenderError::Exhausted);
                }
                let mut tree = tree;
                let ghost rendered = tree@;
                let ghost start = surface@.next;
                proof {
                    surface.lemma_next_in_range();
                    lemma_diffed_within_budget(name@, stored, rendered, start);
                    lemma_diffed_is_drawn(name@, stored, rendered, start);
                }
                diff::diff_node(surface, name, &self.widgets[i].tree, &mut tree);
                self.widgets[i].tree = tree;
                proof {
                    assert(self.names() =~= names);
                    assert(self.records() =~= records.update(
                        i as int,
                        MountedView {
                            state: records[i as int].state,
                            props: records[i as int].props,
                            tree: diffed_node(name@, stored, rendered, start).node,
                        },
                    ));
                    assert forall|n: Seq<char>| n != name@ implies (self.has(n) == #[trigger] old(self).has(n))
                        && (self.has(n) ==> self.record(n) == old(self).record(n)) by {
                        if self.has(n) {
                            let j = names.index_of(n);
                            assert(names[j] == n);
                        }
                    }
                }
                Ok(())
            },
            None => vstd::pervasive::unreached(),
        }
    }

    /// Carries out the `action` that the update function of the widget
    /// `name` answered.
    pub fn settle<T, V>(&mut self, surface: &mut Surface, name: &str, action: Action<T>, view: V) -> (result: Result<
        Option<T>,
        RenderError,
    >) where V: Fn(&S, &P) -> Node
        requires
            old(self).wf(),
            old(self).has(name@),
            forall|s: &S, p: &P| call_requires(view, (s, p)),
        ensures
            final(self).wf(),
            final(self).names() == old(self).names(),
            final(self).same_but(old(self), name@),
            final(self).record(name@).state == old(self).record(name@).state,
            final(self).record(name@).props == old(self).record(name@).props,
            settled(
                action,
                view,
                name@,
                old(self).record(name@).state,
                old(self).record(name@).props,
                old(self).record(name@).tree,
                old(surface)@,
                result,
                final(self).record(name@).tree,
                final(surface)@,
            ),
    {
        match action {
            Action::Diff => {
                match self.find(name) {
                    Some(i) => {
                        assert(self.record(name@) == self.records()[i as int]);
                        let tree = view(&self.widgets[i].state, &self.widgets[i].props);
                        let ghost rendered = tree;
                        let result = self.rerender(surface, name, tree);
                        assert(call_ensures(
                            view,
                            (&old(self).record(name@).state, &old(self).record(name@).props),
                            rendered,
                        ));
                        match result {
                            Ok(()) => Ok(None),
                            Err(error) => Err(error),
                        }
                    },
                    None => vstd::pervasive::unreached(),
                }
            },
            Action::Nothing => Ok(None),
            Action::Async(task) => Ok(Some(task)),
        }
    }

    /// The reference to the widget `name`, if one is mounted under it: its
    /// name and the handle of the root of its stored tree.
    pub fn widget(&self, name: &str) -> (widget: Option<Widget>)
        requires
            self.wf(),
        ensures
            widget is Some == self.has(name@),
            widget matches Some(w) ==> w.name@ == name@ && Some(w.dom_node) == self.record(name@).tree.handle(),
    {
        match self.find(name) {
            Some(i) => {
                assert(self.record(name@) == self.records()[i as int]);
                match self.widgets[i].tree.dom_node() {
                    Some(dom_node) => Some(Widget { name: name.to_owned(), dom_node }),
                    None => vstd::pervasive::unreached(),
                }
            },
            None => None,
        }
    }

    /// The reference to the widget at place `i`.
    fn widget_at(&self, i: usize) -> (result: Result<Widget, RenderError>)
        requires
            self.wf(),
            i < self.widgets.len(),
        ensures
            result matches Ok(widget) && widget.name@ == self.names()[i as int] && Some(widget.dom_node)
                == self.records()[i as int].tree.handle(),
    {
        match self.widgets[i].tree.dom_node() {
            Some(dom_node) => Ok(Widget { name: self.widgets[i].name.clone(), dom_node }),
            None => vstd::pervasive::unreached(),
        }
    }

    /// Whether a widget is mounted under `name`.
    pub fn contains(&self, name: &str) -> (found: bool)
        requires
            self.wf(),
        ensures
            found == self.has(name@),
    {
        self.find(name).is_some()
    }
}

/// Delivers `msg` to the widget `name`: its update function is given the
/// stored state and properties with the message, and what it answers is
/// carried out by [`Registry::settle`]. The host calls this once for each
/// message: for one that a listener produced, and for the one that a task
/// handed out earlier has ended in.
pub fn update_widget<S, P, M, T, U, V>(
    registry: &mut Registry<S, P>,
    surface: &mut Surface,
    name: &str,
    msg: M,
    update: U,
    view: V,
) -> (result: Result<Option<T>, RenderError>) where U: Fn(&mut S, &P, M) -> Action<T>, V: Fn(&S, &P) -> Node
    requires
        old(registry).wf(),
        old(registry).has(name@),
        forall|s: &mut S, p: &P, m: M| call_requires(update, (s, p, m)),
        forall|s: &S, p: &P| call_requires(view, (s, p)),
    ensures
        final(registry).wf(),
        final(registry).names() == old(registry).names(),
        final(registry).same_but(old(registry), name@),
        final(registry).record(name@).props == old(registry).record(name@).props,
        exists|s: &mut S, action: Action<T>|
            {
                &&& #[trigger] call_ensures(update, (s, &old(registry).record(name@).props, msg), action)
                &&& *s == old(registry).record(name@).state
                &&& *final(s) == final(registry).record(name@).state
                &&& settled(
                    action,
                    view,
                    name@,
                    final(registry).record(name@).state,
                    old(registry).record(name@).props,
                    old(registry).record(name@).tree,
                    old(surface)@,
                    result,
                    final(registry).record(name@).tree,
                    final(surface)@,
                )
            },
{
    match registry.find(name) {
        Some(i) => {
            let ghost names = registry.names();
            let ghost records = registry.records();
            assert(registry.record(name@) == records[i as int]);
            let entry = &mut registry.widgets[i];
            let action = update(&mut entry.state, &entry.props, msg);
            proof {
                assert(registry.names() =~= names);
                assert(registry.records() =~= records.update(
                    i as int,
                    MountedView {
                        state: registry.widgets[i as int].state,
                        props: records[i as int].props,
                        tree: records[i as int].tree,
                    },
                ));
                assert forall|n: Seq<char>| n != name@ implies (registry.has(n) == #[trigger] old(registry).has(n))
                    && (registry.has(n) ==> registry.record(n) == old(registry).record(n)) by {
                    if registry.has(n) {
                        let j = names.index_of(n);
                        assert(names[j] == n);
                    }
                }
            }
            let ghost mid = *registry;
            let result = registry.settle(surface, name, action, view);
            proof {
                assert forall|n: Seq<char>| n != name@ implies (registry.has(n) == #[trigger] old(registry).has(n))
                    && (registry.has(n) ==> registry.record(n) == old(registry).record(n)) by {
                    assert(mid.has(n) == old(registry).has(n));
                }
            }
            result
        },
        None => vstd::pervasive::unreached(),
    }
}

impl Widget {
    /// Constructs the widget `name`, or updates it if it is mounted.
    ///
    /// The first call for a name makes the state with `state`, renders it
    /// with `view`, and mounts the tree. A later call with properties equal
    /// to the stored ones changes nothing. A later call with other
    /// properties renders the stored state with them, brings the tree to
    /// the surface and, if that was done, stores the properties.
    pub fn new<S, P, FS, FV>(
        registry: &mut Registry<S, P>,
        surface: &mut Surface,
        name: &str,
        props: P,
        state: FS,
        view: FV,
    ) -> (result: Result<Widget, RenderError>) where P: PartialEq, FS: FnOnce() -> S, FV: Fn(&S, &P) -> Node
        requires
            old(registry).wf(),
            call_requires(state, ()),
            forall|s: &S, p: &P| call_requires(view, (s, p)),
        ensures
            final(registry).wf(),
            final(registry).same_but(old(registry), name@),
            match result {
                Ok(widget) => {
                    &&& final(registry).has(name@)
                    &&& widget.name@ == name@
                    &&& Some(widget.dom_node) == final(registry).record(name@).tree.handle()
                },
                Err(_) => final(registry).has(name@) == old(registry).has(name@),
            },
            !old(registry).has(name@) ==> exists|made: S, tree: Node|
                {
                    &&& call_ensures(state, (), made)
                    &&& #[trigger] call_ensures(view, (&made, &props), tree)
                    &&& constructed(
                        name@,
                        made,
                        props,
                        tree@,
                        old(surface)@,
                        failure(result),
                        final(registry),
                        final(surface)@,
                    )
                },
            old(registry).has(name@) ==> {
                ||| {
                    &&& P::obeys_eq_spec() ==> old(registry).record(name@).props.eq_spec(&props)
                    &&& result is Ok
                    &&& final(registry).record(name@) == old(registry).record(name@)
                    &&& final(surface)@ == old(surface)@
                }
                ||| {
                    &&& P::obeys_eq_spec() ==> !old(registry).record(name@).props.eq_spec(&props)
                    &&& exists|tree: Node|
                        {
                            &&& #[trigger] call_ensures(view, (&old(registry).record(name@).state, &props), tree)
                            &&& updated(
                                old(registry).record(name@),
                                name@,
                                props,
                                tree@,
                                old(surface)@,
                                failure(result),
                                final(registry).record(name@),
                                final(surface)@,
                            )
                        }
                }
            },
    {
        match registry.find(name) {
            None => {
                let made = state();
                let tree = view(&made, &props);
                let ghost rendered = tree;
                let result = registry.mount(surface, name, made, props, tree);
                assert(call_ensures(view, (&made, &props), rendered));
                result
            },
            Some(i) => {
                assert(registry.record(name@) == registry.records()[i as int]);
                if registry.widgets[i].props == props {
                    registry.widget_at(i)
                } else {
                    let tree = view(&registry.widgets[i].state, &props);
                    let ghost rendered = tree;
                    let ghost kept = registry.record(name@);
                    match registry.rerender(surface, name, tree) {
                        Ok(()) => {
                            let ghost names = registry.names();
                            let ghost records = registry.records();
                            let ghost mid = *registry;
                            assert(registry.record(name@) == records[i as int]);
                            registry.widgets[i].props = props;
                            proof {
                                assert(registry.names() =~= names);
                                assert(registry.records() =~= records.update(
                                    i as int,
                                    MountedView {
                                        state: records[i as int].state,
                                        props,
                                        tree: records[i as int].tree,
                                    },
                                ));
                                assert forall|n: Seq<char>| n != name@ implies (registry.has(n)
                                    == #[trigger] old(registry).has(n)) && (registry.has(n) ==> registry.record(n)
                                    == old(registry).record(n)) by {
                                    assert(mid.has(n) == old(registry).has(n));
                                    if registry.has(n) {
                                        let j = names.index_of(n);
                                        assert(names[j] == n);
                                        assert(mid.record(n) == records[j]);
                                    }
                                }
                                assert(call_ensures(view, (&kept.state, &props), rendered));
                            }
                            registry.widget_at(i)
                        },
                        Err(error) => {
                            assert(call_ensures(view, (&kept.state, &props), rendered));
                            Err(error)
                        },
                    }
                }
            },
        }
    }
}

} // verus!
