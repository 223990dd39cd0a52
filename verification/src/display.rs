//! A model of the display behind the surface, and what drawing and
//! reconciling make of it.
//!
//! The display holds containers and text objects by handle. A container has
//! a tag, attributes and a list of children. Applying a patch changes the
//! display as the host's document changes when the patch is applied to it.
//!
//! Three statements are proved here. Drawing a tree makes the display show
//! it ([`lemma_drawn_shows`]). Reconciling a new tree against the tree that
//! the display shows makes the display show the new tree
//! ([`lemma_diffed_shows`]), and leaves the new tree ready for the next
//! reconciliation ([`lemma_diffed_is_ready`]). Mounting a tree, which is
//! drawing and wiring it, makes the display show it
//! ([`lemma_mounted_shows`]). The statements about reconciling are about
//! plain trees, those without widget references: the root of a widget is an
//! object of that widget's own tree, and appending it elsewhere would move
//! it.

use crate::diff::{
    diffed_attributes, diffed_children, diffed_element, diffed_listeners, diffed_node, diffed_pairs,
    fresh_listeners, lemma_diffed_node_next, lemma_diffed_pairs_next, lemma_fresh_listeners, lemma_stale_listeners,
    replaced, stale_listeners,
};
use crate::draw::{
    attribute_patches, drawn_all, drawn_children, drawn_node, handles_of, lemma_drawn_all_next,
    lemma_drawn_children_next, lemma_drawn_handle, lemma_drawn_next,
};
use crate::events::{binding_patches, lemma_listened_next, listened_children, listened_node, Listener};
use crate::keyed::{has_key, keys, lemma_has_key, lemma_position, lemma_unique_position, position, unique_keys};
use crate::laws::{
    attribute_map, attributes_applied, lemma_attributes_reach_the_new, lemma_attributes_symmetric_difference,
    lemma_diffed_is_well_formed, lemma_drawn_is_drawn, lemma_listened_is_drawn, owed,
};
use crate::nodes::element::ElementView;
use crate::nodes::mounted;
use crate::nodes::node::{NodeView, Step, Steps};
use crate::patch::{appends, removals};
use crate::surface::{Handle, PatchView};
use vstd::prelude::*;

verus! {

/// An object of the display.
pub enum Shown {
    Container { tag: Seq<char>, attrs: Map<Seq<char>, Seq<char>>, children: Seq<Handle> },
    Text { data: Seq<char> },
}

/// The objects of the display, by handle.
pub type Display = Map<Handle, Shown>;

/// `shown` with `by` in the place of `node` among its children.
pub open spec fn substituted(shown: Shown, node: Handle, by: Handle) -> Shown {
    match shown {
        Shown::Container { tag, attrs, children } => Shown::Container {
            tag,
            attrs,
            children: children.map_values(
                |child: Handle|
                    if child == node {
                        by
                    } else {
                        child
                    },
            ),
        },
        Shown::Text { data } => shown,
    }
}

/// The display after `patch` is applied to it. A patch for an object that
/// the display lacks, or that is of the other kind, changes nothing, and
/// neither does a patch about listeners or about the root of the document.
pub open spec fn applied(display: Display, patch: PatchView) -> Display {
    match patch {
        PatchView::CreateElement { handle, tag } => display.insert(
            handle,
            Shown::Container { tag, attrs: Map::empty(), children: Seq::empty() },
        ),
        PatchView::CreateText { handle, data } => display.insert(handle, Shown::Text { data }),
        PatchView::ReplaceNode { node, by } => display.map_values(|shown: Shown| substituted(shown, node, by)),
        PatchView::SetAttribute { element, name, value } => match display[element] {
            Shown::Container { tag, attrs, children } if display.contains_key(element) => display.insert(
                element,
                Shown::Container { tag, attrs: attrs.insert(name, value), children },
            ),
            _ => display,
        },
        PatchView::RemoveAttribute { element, name } => match display[element] {
            Shown::Container { tag, attrs, children } if display.contains_key(element) => display.insert(
                element,
                Shown::Container { tag, attrs: attrs.remove(name), children },
            ),
            _ => display,
        },
        PatchView::AppendChild { parent, child } => match display[parent] {
            Shown::Container { tag, attrs, children } if display.contains_key(parent) => display.insert(
                parent,
                Shown::Container { tag, attrs, children: children.push(child) },
            ),
            _ => display,
        },
        PatchView::RemoveLastChild { parent } => match display[parent] {
            Shown::Container { tag, attrs, children } if display.contains_key(parent) && children.len() > 0 =>
                display.insert(parent, Shown::Container { tag, attrs, children: children.drop_last() }),
            _ => display,
        },
        PatchView::SetTextData { text, data } => match display[text] {
            Shown::Text { .. } if display.contains_key(text) => display.insert(text, Shown::Text { data }),
            _ => display,
        },
        _ => display,
    }
}

/// The display after `patches` are applied to it in order.
pub open spec fn applied_all(display: Display, patches: Seq<PatchView>) -> Display
    decreases patches.len(),
{
    if patches.len() == 0 {
        display
    } else {
        applied(applied_all(display, patches.drop_last()), patches.last())
    }
}

/// Whether the display shows the drawn tree `tree`: each element of it is a
/// container with the element's tag and attributes, and with the objects
/// of the element's children as its children, in order; each text of it is
/// a text object with the text's data. What a widget reference stands for
/// is the matter of that widget.
pub open spec fn shows(display: Display, tree: NodeView) -> bool
    decreases tree,
{
    match tree {
        NodeView::Element(el) => {
            &&& el.handle is Some
            &&& display.contains_key(el.handle.unwrap())
            &&& display[el.handle.unwrap()] == (Shown::Container {
                tag: el.tag,
                attrs: attribute_map(el.attrs),
                children: handles_of(el.children),
            })
            &&& forall|i: int| 0 <= i < el.children.len() ==> shows(display, #[trigger] el.children[i])
        },
        NodeView::Text(txt) => {
            &&& txt.handle is Some
            &&& display.contains_key(txt.handle.unwrap())
            &&& display[txt.handle.unwrap()] == (Shown::Text { data: txt.val })
        },
        NodeView::Widget(_) => true,
    }
}

/// Whether `handle` names an element or a text of `tree`.
pub open spec fn names(tree: NodeView, handle: Handle) -> bool
    decreases tree,
{
    match tree {
        NodeView::Element(el) => {
            ||| el.handle == Some(handle)
            ||| exists|i: int| 0 <= i < el.children.len() && names(#[trigger] el.children[i], handle)
        },
        NodeView::Text(txt) => txt.handle == Some(handle),
        NodeView::Widget(_) => false,
    }
}

/// Applying patches one list after another is applying them all.
pub proof fn lemma_applied_all_concat(display: Display, first: Seq<PatchView>, second: Seq<PatchView>)
    ensures
        applied_all(display, first + second) == applied_all(applied_all(display, first), second),
    decreases second.len(),
{
    if second.len() == 0 {
        assert(first + second =~= first);
    } else {
        lemma_applied_all_concat(display, first, second.drop_last());
        assert((first + second).drop_last() =~= first + second.drop_last());
        assert((first + second).last() == second.last());
    }
}

/// Applying one patch is applying the list of it.
pub proof fn lemma_applied_one(display: Display, patch: PatchView)
    ensures
        applied_all(display, seq![patch]) == applied(display, patch),
{
    assert(seq![patch].drop_last() =~= Seq::<PatchView>::empty());
    assert(applied_all(display, seq![patch].drop_last()) == display);
}

/// A display that agrees with another on the objects of a tree shows the
/// tree if the other does.
pub proof fn lemma_shows_elsewhere(display: Display, other: Display, tree: NodeView)
    requires
        shows(display, tree),
        forall|handle: Handle|
            #[trigger] names(tree, handle) && display.contains_key(handle) ==> other.contains_key(handle)
                && other[handle] == display[handle],
    ensures
        shows(other, tree),
    decreases tree,
{
    match tree {
        NodeView::Element(el) => {
            assert(names(tree, el.handle.unwrap()));
            assert forall|i: int| 0 <= i < el.children.len() implies shows(other, #[trigger] el.children[i]) by {
                assert forall|handle: Handle| #[trigger]
                    names(el.children[i], handle) && display.contains_key(handle) implies other.contains_key(
                    handle,
                ) && other[handle] == display[handle] by {
                    assert(names(tree, handle));
                }
                lemma_shows_elsewhere(display, other, el.children[i]);
            }
        },
        NodeView::Text(txt) => {
            assert(names(tree, txt.handle.unwrap()));
        },
        NodeView::Widget(_) => {},
    }
}

/// Setting attributes with unique names on a container without attributes
/// gives it exactly these attributes, and changes nothing else.
pub proof fn lemma_attributes_set(display: Display, element: Handle, attrs: Seq<(Seq<char>, Seq<char>)>)
    requires
        unique_keys(attrs),
        display.contains_key(element),
        display[element] is Container,
        display[element]->attrs == Map::<Seq<char>, Seq<char>>::empty(),
    ensures
        applied_all(display, attribute_patches(element, attrs)) == display.insert(
            element,
            Shown::Container {
                tag: display[element]->tag,
                attrs: attribute_map(attrs),
                children: display[element]->children,
            },
        ),
    decreases attrs.len(),
{
    let patches = attribute_patches(element, attrs);
    if attrs.len() == 0 {
        assert(attribute_map(attrs) =~= Map::<Seq<char>, Seq<char>>::empty()) by {
            assert forall|name: Seq<char>| !has_key(attrs, name) by {
                lemma_has_key(attrs, name);
                lemma_position(attrs, name);
            }
        }
        assert(display.insert(element, display[element]) =~= display);
    } else {
        let rest = attrs.drop_last();
        assert(keys(rest) =~= keys(attrs).drop_last());
        lemma_attributes_set(display, element, rest);
        assert(patches.drop_last() =~= attribute_patches(element, rest));
        let last = attrs.last();
        assert(attribute_map(attrs) =~= attribute_map(rest).insert(last.0, last.1)) by {
            assert forall|name: Seq<char>|
                #![trigger attribute_map(attrs).dom().contains(name)]
                #![trigger attribute_map(rest).insert(last.0, last.1).dom().contains(name)]
                attribute_map(attrs).dom().contains(name) == attribute_map(rest).insert(
                    last.0,
                    last.1,
                ).dom().contains(name) && (attribute_map(attrs).dom().contains(name) ==> attribute_map(attrs)[name]
                    == attribute_map(rest).insert(last.0, last.1)[name]) by {
                lemma_has_key(attrs, name);
                lemma_has_key(rest, name);
                lemma_position(attrs, name);
                lemma_position(rest, name);
                lemma_unique_position(attrs, attrs.len() - 1);
                if name != last.0 {
                    if position(attrs, name) is Some {
                        let i = position(attrs, name).unwrap();
                        assert(rest[i] == attrs[i]);
                        lemma_unique_position(rest, i);
                    }
                    if position(rest, name) is Some {
                        let i = position(rest, name).unwrap();
                        assert(rest[i] == attrs[i]);
                        lemma_unique_position(attrs, i);
                    }
                }
            }
        }
        let before = applied_all(display, patches.drop_last());
        assert(applied_all(display, patches) =~= display.insert(
            element,
            Shown::Container {
                tag: display[element]->tag,
                attrs: attribute_map(attrs),
                children: display[element]->children,
            },
        ));
    }
}

/// Whether `tree` holds no widget reference.
pub open spec fn plain(tree: NodeView) -> bool
    decreases tree,
{
    match tree {
        NodeView::Element(el) => forall|i: int| 0 <= i < el.children.len() ==> plain(#[trigger] el.children[i]),
        NodeView::Text(_) => true,
        NodeView::Widget(_) => false,
    }
}

/// Whether no handle names two nodes of `tree`.
pub open spec fn separate(tree: NodeView) -> bool
    decreases tree,
{
    match tree {
        NodeView::Element(el) => {
            &&& forall|i: int|
                0 <= i < el.children.len() && el.handle is Some ==> !names(
                    #[trigger] el.children[i],
                    el.handle.unwrap(),
                )
            &&& apart(el.children)
            &&& forall|i: int| 0 <= i < el.children.len() ==> separate(#[trigger] el.children[i])
        },
        _ => true,
    }
}

/// Whether no handle names nodes of two of `trees`.
#[verifier::opaque]
pub open spec fn apart(trees: Seq<NodeView>) -> bool {
    forall|i: int, j: int, handle: Handle|
        0 <= i < trees.len() && 0 <= j < trees.len() && i != j && #[trigger] names(trees[i], handle) ==> !#[trigger] names(
            trees[j],
            handle,
        )
}

/// Whether every handle that names a node of `tree` is below `next`.
pub open spec fn below(tree: NodeView, next: int) -> bool {
    forall|handle: Handle| #[trigger] names(tree, handle) ==> handle < next
}

/// Whether `handle` is a child of the object `shown`.
pub open spec fn mentions(shown: Shown, handle: Handle) -> bool {
    shown is Container && shown->children.contains(handle)
}

/// Whether the object `shown` has no node of `tree` as a child, but
/// perhaps its root.
pub open spec fn clear_of(shown: Shown, tree: NodeView) -> bool {
    forall|handle: Handle|
        #[trigger] names(tree, handle) && Some(handle) != tree.handle() ==> !mentions(shown, handle)
}

/// What being apart says of two of the trees.
pub proof fn lemma_apart(trees: Seq<NodeView>, i: int, j: int, handle: Handle)
    requires
        apart(trees),
        0 <= i < trees.len(),
        0 <= j < trees.len(),
        i != j,
        names(trees[i], handle),
    ensures
        !names(trees[j], handle),
{
    reveal(apart);
}

/// Putting `by` in the place of a handle that an object does not have as a
/// child, or of `by` itself, leaves the object as it is.
pub proof fn lemma_substituted_nothing(shown: Shown, node: Handle, by: Handle)
    requires
        node == by || !mentions(shown, node),
    ensures
        substituted(shown, node, by) == shown,
{
    match shown {
        Shown::Container { tag, attrs, children } => {
            let changed = substituted(shown, node, by)->children;
            assert forall|i: int| 0 <= i < children.len() implies changed[i] == children[i] by {
                if node != by {
                    assert(children.contains(children[i]));
                }
            }
            assert(changed =~= children);
        },
        Shown::Text { .. } => {},
    }
}

/// In a display that shows a plain tree, the children of an object of the
/// tree are nodes of the tree other than its root.
pub proof fn lemma_shown_mentions(display: Display, tree: NodeView, named: Handle, child: Handle)
    requires
        shows(display, tree),
        plain(tree),
        separate(tree),
        names(tree, named),
        mentions(display[named], child),
    ensures
        names(tree, child),
        Some(child) != tree.handle(),
    decreases tree,
{
    match tree {
        NodeView::Element(el) => {
            if el.handle == Some(named) {
                let at = handles_of(el.children).index_of(child);
                assert(handles_of(el.children)[at] == child);
                lemma_shown_root(display, el.children[at]);
                assert(names(el.children[at], child));
            } else {
                let i = choose|i: int| 0 <= i < el.children.len() && names(#[trigger] el.children[i], named);
                lemma_shown_mentions(display, el.children[i], named, child);
                assert(names(el.children[i], child));
            }
        },
        _ => {},
    }
}

/// The root of a plain tree that the display shows is named by its handle.
pub proof fn lemma_shown_root(display: Display, tree: NodeView)
    requires
        shows(display, tree),
        plain(tree),
    ensures
        tree.handle() is Some,
        names(tree, tree.handle().unwrap()),
{
}

/// Reconciling listeners changes nothing that the display shows.
pub proof fn lemma_listeners_keep_display(
    display: Display,
    widget: Seq<char>,
    element: Handle,
    from: Seq<(Seq<char>, Listener)>,
    to: Seq<(Seq<char>, Listener)>,
    next: int,
)
    ensures
        applied_all(display, diffed_listeners(widget, element, from, to, next).patches) == display,
{
    let stale = stale_listeners(widget, element, from, to, next);
    let fresh = fresh_listeners(widget, element, from, stale.listeners, stale.next);
    lemma_stale_keeps_display(display, widget, element, from, to, next);
    lemma_fresh_keeps_display(display, widget, element, from, stale.listeners, stale.next);
    lemma_applied_all_concat(display, stale.patches, fresh.patches);
}

/// Going through the old listeners changes nothing that the display shows.
proof fn lemma_stale_keeps_display(
    display: Display,
    widget: Seq<char>,
    element: Handle,
    from: Seq<(Seq<char>, Listener)>,
    to: Seq<(Seq<char>, Listener)>,
    next: int,
)
    ensures
        applied_all(display, stale_listeners(widget, element, from, to, next).patches) == display,
    decreases from.len(),
{
    if from.len() > 0 {
        lemma_stale_keeps_display(display, widget, element, from.drop_last(), to, next);
        let before = stale_listeners(widget, element, from.drop_last(), to, next);
        let all = stale_listeners(widget, element, from, to, next);
        if all.patches.len() > before.patches.len() {
            assert(all.patches.drop_last() =~= before.patches);
        }
    }
}

/// Going through the new listeners changes nothing that the display shows.
proof fn lemma_fresh_keeps_display(
    display: Display,
    widget: Seq<char>,
    element: Handle,
    from: Seq<(Seq<char>, Listener)>,
    to: Seq<(Seq<char>, Listener)>,
    next: int,
)
    ensures
        applied_all(display, fresh_listeners(widget, element, from, to, next).patches) == display,
    decreases to.len(),
{
    if to.len() > 0 {
        lemma_fresh_keeps_display(display, widget, element, from, to.drop_last(), next);
        let before = fresh_listeners(widget, element, from, to.drop_last(), next);
        let all = fresh_listeners(widget, element, from, to, next);
        if all.patches.len() > before.patches.len() {
            assert(all.patches.drop_last() =~= before.patches);
        }
    }
}

/// Patches that set and remove attributes of one container change its
/// attributes as [`attributes_applied`] says, and nothing else.
pub proof fn lemma_attributes_patched(display: Display, element: Handle, patches: Seq<PatchView>)
    requires
        display.contains_key(element),
        display[element] is Container,
        forall|k: int|
            0 <= k < patches.len() ==> match #[trigger] patches[k] {
                PatchView::SetAttribute { element: target, .. } => target == element,
                PatchView::RemoveAttribute { element: target, .. } => target == element,
                _ => false,
            },
    ensures
        applied_all(display, patches) == display.insert(
            element,
            Shown::Container {
                tag: display[element]->tag,
                attrs: attributes_applied(display[element]->attrs, patches),
                children: display[element]->children,
            },
        ),
    decreases patches.len(),
{
    if patches.len() == 0 {
        assert(display.insert(element, display[element]) =~= display);
    } else {
        let rest = patches.drop_last();
        assert forall|k: int| 0 <= k < rest.len() implies match #[trigger] rest[k] {
            PatchView::SetAttribute { element: target, .. } => target == element,
            PatchView::RemoveAttribute { element: target, .. } => target == element,
            _ => false,
        } by {
            assert(rest[k] == patches[k]);
        }
        lemma_attributes_patched(display, element, rest);
        let last = patches[patches.len() - 1];
        assert(applied_all(display, patches) =~= display.insert(
            element,
            Shown::Container {
                tag: display[element]->tag,
                attrs: attributes_applied(display[element]->attrs, patches),
                children: display[element]->children,
            },
        ));
    }
}

/// Removing the last child `n` times from a container with at least `n`
/// children leaves it the children before them, and changes nothing else.
pub proof fn lemma_removals_applied(display: Display, parent: Handle, n: nat)
    requires
        display.contains_key(parent),
        display[parent] is Container,
        n <= display[parent]->children.len(),
    ensures
        applied_all(display, removals(parent, n)) == display.insert(
            parent,
            Shown::Container {
                tag: display[parent]->tag,
                attrs: display[parent]->attrs,
                children: display[parent]->children.take(display[parent]->children.len() - n),
            },
        ),
    decreases n,
{
    let children = display[parent]->children;
    if n == 0 {
        assert(removals(parent, 0).len() == 0);
        assert(children.take(children.len() - 0) =~= children);
        assert(display.insert(parent, display[parent]) =~= display);
    } else {
        lemma_removals_applied(display, parent, (n - 1) as nat);
        assert(removals(parent, n).drop_last() =~= removals(parent, (n - 1) as nat));
        assert(children.take(children.len() - (n - 1)).drop_last() =~= children.take(children.len() - n));
        assert(applied_all(display, removals(parent, n)) =~= display.insert(
            parent,
            Shown::Container {
                tag: display[parent]->tag,
                attrs: display[parent]->attrs,
                children: children.take(children.len() - n),
            },
        ));
    }
}

/// Appending children to a container adds them after its children, in
/// order, and changes nothing else.
pub proof fn lemma_appends_applied(display: Display, parent: Handle, children: Seq<Handle>)
    requires
        display.contains_key(parent),
        display[parent] is Container,
    ensures
        applied_all(display, appends(parent, children)) == display.insert(
            parent,
            Shown::Container {
                tag: display[parent]->tag,
                attrs: display[parent]->attrs,
                children: display[parent]->children + children,
            },
        ),
    decreases children.len(),
{
    let had = display[parent]->children;
    if children.len() == 0 {
        assert(appends(parent, children).len() == 0);
        assert(had + children =~= had);
        assert(display.insert(parent, display[parent]) =~= display);
    } else {
        lemma_appends_applied(display, parent, children.drop_last());
        assert(appends(parent, children).drop_last() =~= appends(parent, children.drop_last()));
        assert((had + children.drop_last()).push(children.last()) =~= had + children);
        assert(applied_all(display, appends(parent, children)) =~= display.insert(
            parent,
            Shown::Container {
                tag: display[parent]->tag,
                attrs: display[parent]->attrs,
                children: had + children,
            },
        ));
    }
}

/// Putting one object in the place of another changes the children of the
/// containers, and nothing else.
pub proof fn lemma_replace_applied(display: Display, node: Handle, by: Handle, handle: Handle)
    ensures
        applied(display, PatchView::ReplaceNode { node, by }).contains_key(handle) == display.contains_key(
            handle,
        ),
        display.contains_key(handle) ==> applied(display, PatchView::ReplaceNode { node, by })[handle]
            == substituted(display[handle], node, by),
{
}

/// Whether the object under `handle` is in `after` what it is in `before`.
pub open spec fn same_at(before: Display, after: Display, handle: Handle) -> bool {
    &&& after.contains_key(handle) == before.contains_key(handle)
    &&& after[handle] == before[handle]
}

/// Whether the object under `handle` is in `after` what it is in `before`,
/// but with `by` as a child wherever it had `node`.
pub open spec fn moved_at(before: Display, after: Display, node: Handle, by: Handle, handle: Handle) -> bool {
    &&& after.contains_key(handle) == before.contains_key(handle)
    &&& before.contains_key(handle) ==> after[handle] == substituted(before[handle], node, by)
}

/// What drawing `tree` makes of the display, when `step` is what drawing
/// leaves behind and `next` was the next free handle: `after` shows the
/// drawn tree. Its objects are named by the handles that drawing took, no
/// handle names two of them, and every other object is as it was.
pub open spec fn drawn_in(display: Display, after: Display, tree: NodeView, step: Step, next: int) -> bool {
    &&& shows(after, step.node)
    &&& separate(step.node)
    &&& plain(tree) ==> plain(step.node)
    &&& forall|handle: Handle| #[trigger] names(step.node, handle) ==> next <= handle < step.next
    &&& forall|handle: Handle| !(next <= handle < step.next) ==> #[trigger] same_at(display, after, handle)
}

/// What drawing `trees` one after the other makes of the display, when
/// `steps` is what drawing leaves behind and `next` was the next free
/// handle: `after` shows the drawn trees. Their objects are named by the
/// handles that drawing took, no handle names two of them, and every other
/// object but `parent` is as it was.
pub open spec fn all_drawn_in(
    display: Display,
    after: Display,
    parent: Option<Handle>,
    trees: Seq<NodeView>,
    steps: Steps,
    next: int,
) -> bool {
    &&& steps.nodes.len() == trees.len()
    &&& next <= steps.next
    &&& forall|i: int|
        0 <= i < trees.len() ==> {
            &&& shows(after, #[trigger] steps.nodes[i])
            &&& separate(steps.nodes[i])
            &&& plain(trees[i]) ==> plain(steps.nodes[i])
        }
    &&& apart(steps.nodes)
    &&& forall|i: int, handle: Handle|
        0 <= i < trees.len() && #[trigger] names(steps.nodes[i], handle) ==> next <= handle < steps.next
    &&& forall|handle: Handle|
        !(next <= handle < steps.next) && Some(handle) != parent ==> #[trigger] same_at(display, after, handle)
}

/// Drawing one more tree keeps what drawing the trees before it has made,
/// and adds the drawn tree to it.
proof fn lemma_one_more_drawn(
    display: Display,
    first: Display,
    second: Display,
    after: Display,
    parent: Option<Handle>,
    trees: Seq<NodeView>,
    before: Steps,
    last: Step,
    steps: Steps,
    next: int,
)
    requires
        trees.len() > 0,
        all_drawn_in(display, first, parent, trees.drop_last(), before, next),
        drawn_in(first, second, trees.last(), last, before.next),
        before.next <= last.next,
        steps.nodes == before.nodes.push(last.node),
        steps.next == last.next,
        parent matches Some(handle) ==> handle < next,
        forall|handle: Handle| Some(handle) != parent ==> #[trigger] same_at(second, after, handle),
    ensures
        all_drawn_in(display, after, parent, trees, steps, next),
{
    let rest = trees.drop_last();
    assert forall|i: int| 0 <= i < trees.len() implies {
        &&& shows(after, #[trigger] steps.nodes[i])
        &&& separate(steps.nodes[i])
        &&& plain(trees[i]) ==> plain(steps.nodes[i])
    } by {
        if i < rest.len() {
            let kept = before.nodes[i];
            assert(steps.nodes[i] == kept);
            assert(rest[i] == trees[i]);
            assert forall|handle: Handle| #[trigger] names(kept, handle) && first.contains_key(
                handle,
            ) implies after.contains_key(handle) && after[handle] == first[handle] by {
                assert(next <= handle < before.next);
                assert(same_at(first, second, handle));
                assert(same_at(second, after, handle));
            }
            lemma_shows_elsewhere(first, after, kept);
        } else {
            assert(steps.nodes[i] == last.node);
            assert forall|handle: Handle| #[trigger] names(last.node, handle) && second.contains_key(
                handle,
            ) implies after.contains_key(handle) && after[handle] == second[handle] by {
                assert(before.next <= handle < last.next);
                assert(same_at(second, after, handle));
            }
            lemma_shows_elsewhere(second, after, last.node);
        }
    }
    assert forall|i: int, handle: Handle| 0 <= i < trees.len() && #[trigger] names(steps.nodes[i], handle) implies (
    if i < rest.len() {
        next <= handle < before.next
    } else {
        before.next <= handle < steps.next
    }) by {
        if i < rest.len() {
            assert(steps.nodes[i] == before.nodes[i]);
        } else {
            assert(steps.nodes[i] == last.node);
        }
    }
    assert(apart(steps.nodes)) by {
        assert(apart(before.nodes));
        reveal(apart);
        assert forall|i: int, j: int, handle: Handle|
            0 <= i < steps.nodes.len() && 0 <= j < steps.nodes.len() && i != j && #[trigger] names(
                steps.nodes[i],
                handle,
            ) implies !#[trigger] names(steps.nodes[j], handle) by {
            if i < rest.len() && j < rest.len() {
                assert(steps.nodes[i] == before.nodes[i]);
                assert(steps.nodes[j] == before.nodes[j]);
            } else if names(steps.nodes[j], handle) {
            }
        }
    }
    assert forall|handle: Handle|
        !(next <= handle < steps.next) && Some(handle) != parent implies #[trigger] same_at(
        display,
        after,
        handle,
    ) by {
        assert(same_at(display, first, handle));
        assert(same_at(first, second, handle));
        assert(same_at(second, after, handle));
    }
}

/// Drawing a well-formed tree makes the display show it. The objects of
/// the tree are named by the handles that drawing takes, and no other
/// object of the display changes.
pub proof fn lemma_drawn_shows(display: Display, tree: NodeView, next: int)
    requires
        tree.well_formed(),
        0 <= next,
        drawn_node(tree, next).next <= u64::MAX,
    ensures
        drawn_in(
            display,
            applied_all(display, drawn_node(tree, next).patches),
            tree,
            drawn_node(tree, next),
            next,
        ),
    decreases tree, 0nat,
{
    let step = drawn_node(tree, next);
    let after = applied_all(display, step.patches);
    match tree {
        NodeView::Element(el) => {
            let handle = next as Handle;
            let created = seq![PatchView::CreateElement { handle, tag: el.tag }];
            let attributes = attribute_patches(handle, el.attrs);
            let children = drawn_children(handle, el.children, next + 1);
            lemma_drawn_children_next(handle, el.children, next + 1);
            let first = applied_all(display, created);
            lemma_applied_one(display, created[0]);
            lemma_attributes_set(first, handle, el.attrs);
            let second = applied_all(first, attributes);
            lemma_drawn_children_show(second, handle, el.children, next + 1);
            lemma_applied_all_concat(display, created, attributes);
            lemma_applied_all_concat(display, created + attributes, children.patches);
            assert(after == applied_all(second, children.patches));
            assert(handles_of(children.nodes) =~= Seq::<Handle>::empty() + handles_of(children.nodes));
            assert forall|named: Handle| #[trigger] names(step.node, named) implies next <= named < step.next by {
                if named != handle {
                    let i = choose|i: int| 0 <= i < children.nodes.len() && names(#[trigger] children.nodes[i], named);
                    assert(names(children.nodes[i], named));
                }
            }
            assert forall|named: Handle| !(next <= named < step.next) implies #[trigger] same_at(
                display,
                after,
                named,
            ) by {
                assert(same_at(second, after, named));
            }
            assert(plain(tree) ==> plain(step.node)) by {
                if plain(tree) {
                    assert forall|i: int| 0 <= i < children.nodes.len() implies plain(
                        #[trigger] children.nodes[i],
                    ) by {
                        assert(plain(el.children[i]));
                    }
                }
            }
        },
        NodeView::Text(txt) => {
            lemma_applied_one(display, step.patches[0]);
            assert forall|named: Handle| !(next <= named < step.next) implies #[trigger] same_at(
                display,
                after,
                named,
            ) by {}
        },
        NodeView::Widget(_) => {
            assert forall|named: Handle| !(next <= named < step.next) implies #[trigger] same_at(
                display,
                after,
                named,
            ) by {}
        },
    }
}

/// Drawing well-formed children under a container appends their objects
/// to its children, in order, and makes the display show each of them.
pub proof fn lemma_drawn_children_show(display: Display, parent: Handle, children: Seq<NodeView>, next: int)
    requires
        forall|i: int| 0 <= i < children.len() ==> (#[trigger] children[i]).well_formed(),
        parent < next,
        drawn_children(parent, children, next).next <= u64::MAX,
        display.contains_key(parent),
        display[parent] is Container,
    ensures
        all_drawn_in(
            display,
            applied_all(display, drawn_children(parent, children, next).patches),
            Some(parent),
            children,
            drawn_children(parent, children, next),
            next,
        ),
        applied_all(display, drawn_children(parent, children, next).patches).contains_key(parent),
        applied_all(display, drawn_children(parent, children, next).patches)[parent] == (Shown::Container {
            tag: display[parent]->tag,
            attrs: display[parent]->attrs,
            children: display[parent]->children + handles_of(drawn_children(parent, children, next).nodes),
        }),
    decreases children, 1nat,
{
    let kids = drawn_children(parent, children, next);
    if children.len() == 0 {
        assert(display[parent]->children + handles_of(kids.nodes) =~= display[parent]->children);
        assert(apart(kids.nodes)) by {
            reveal(apart);
        }
        assert forall|handle: Handle| true implies #[trigger] same_at(display, display, handle) by {}
    } else {
        let rest = children.drop_last();
        let before = drawn_children(parent, rest, next);
        let last = drawn_node(children.last(), before.next);
        lemma_drawn_children_next(parent, rest, next);
        lemma_drawn_next(children.last(), before.next);
        lemma_drawn_handle(children.last(), before.next);
        lemma_drawn_children_show(display, parent, rest, next);
        let first = applied_all(display, before.patches);
        lemma_drawn_shows(first, children.last(), before.next);
        let second = applied_all(first, last.patches);
        let child = last.node.handle().unwrap();
        let append = PatchView::AppendChild { parent, child };
        let after = applied_all(display, kids.patches);
        lemma_applied_all_concat(display, before.patches, last.patches);
        lemma_applied_all_concat(display, before.patches + last.patches, seq![append]);
        lemma_applied_one(second, append);
        assert(after == applied(second, append));
        assert(same_at(first, second, parent));
        assert(handles_of(kids.nodes) =~= handles_of(before.nodes).push(child));
        assert(display[parent]->children + handles_of(kids.nodes) =~= (display[parent]->children + handles_of(
            before.nodes,
        )).push(child));
        assert forall|handle: Handle| Some(handle) != Some(parent) implies #[trigger] same_at(
            second,
            after,
            handle,
        ) by {}
        lemma_one_more_drawn(display, first, second, after, Some(parent), children, before, last, kids, next);
    }
}

/// Drawing well-formed trees one after the other makes the display show
/// each of them.
pub proof fn lemma_drawn_all_show(display: Display, trees: Seq<NodeView>, next: int)
    requires
        forall|i: int| 0 <= i < trees.len() ==> (#[trigger] trees[i]).well_formed(),
        0 <= next,
        drawn_all(trees, next).next <= u64::MAX,
    ensures
        all_drawn_in(
            display,
            applied_all(display, drawn_all(trees, next).patches),
            None,
            trees,
            drawn_all(trees, next),
            next,
        ),
    decreases trees.len(),
{
    let grown = drawn_all(trees, next);
    if trees.len() == 0 {
        assert(apart(grown.nodes)) by {
            reveal(apart);
        }
        assert forall|handle: Handle| true implies #[trigger] same_at(display, display, handle) by {}
    } else {
        let rest = trees.drop_last();
        let before = drawn_all(rest, next);
        let last = drawn_node(trees.last(), before.next);
        lemma_drawn_all_next(rest, next);
        lemma_drawn_next(trees.last(), before.next);
        lemma_drawn_all_show(display, rest, next);
        let first = applied_all(display, before.patches);
        lemma_drawn_shows(first, trees.last(), before.next);
        let second = applied_all(first, last.patches);
        lemma_applied_all_concat(display, before.patches, last.patches);
        assert forall|handle: Handle| true implies #[trigger] same_at(second, second, handle) by {}
        lemma_one_more_drawn(display, first, second, second, None, trees, before, last, grown, next);
    }
}

/// What drawing a tree and putting it in the place of the older object
/// `node` makes of the display, when `step` is what that leaves behind
/// and `next` was the next free handle: `after` shows the drawn tree. Its
/// objects are named by the handles that drawing took. Every other object
/// has the root of the tree as a child wherever it had `node`, and is as it
/// was otherwise.
pub open spec fn put_in_place(display: Display, after: Display, node: Handle, step: Step, next: int) -> bool {
    &&& step.node.handle() is Some
    &&& next <= step.node.handle().unwrap() < step.next
    &&& shows(after, step.node)
    &&& plain(step.node)
    &&& separate(step.node)
    &&& forall|handle: Handle| #[trigger] names(step.node, handle) ==> next <= handle < step.next
    &&& forall|handle: Handle|
        !(next <= handle < step.next) ==> #[trigger] moved_at(
            display,
            after,
            node,
            step.node.handle().unwrap(),
            handle,
        )
}

/// Drawing a plain, well-formed tree and putting it in the place of an
/// older object makes the display show the tree.
pub proof fn lemma_replaced_shows(display: Display, node: Handle, to: NodeView, next: int)
    requires
        plain(to),
        to.well_formed(),
        node < next,
        0 <= next,
        replaced(node, to, next).next <= u64::MAX,
    ensures
        put_in_place(
            display,
            applied_all(display, replaced(node, to, next).patches),
            node,
            replaced(node, to, next),
            next,
        ),
{
    let drawn = drawn_node(to, next);
    let step = replaced(node, to, next);
    let by = drawn.node.handle().unwrap();
    let replace = PatchView::ReplaceNode { node, by };
    lemma_drawn_shows(display, to, next);
    lemma_drawn_handle(to, next);
    lemma_drawn_next(to, next);
    let mid = applied_all(display, drawn.patches);
    let after = applied_all(display, step.patches);
    assert(step.node == drawn.node);
    assert(step.next == drawn.next);
    assert(step.patches.drop_last() =~= drawn.patches);
    assert(after == applied(mid, replace));
    lemma_shown_root(mid, drawn.node);
    assert forall|handle: Handle| #[trigger] names(drawn.node, handle) && mid.contains_key(
        handle,
    ) implies after.contains_key(handle) && after[handle] == mid[handle] by {
        if mentions(mid[handle], node) {
            lemma_shown_mentions(mid, drawn.node, handle, node);
        }
        lemma_substituted_nothing(mid[handle], node, by);
        lemma_replace_applied(mid, node, by, handle);
    }
    lemma_shows_elsewhere(mid, after, drawn.node);
    assert forall|handle: Handle| !(next <= handle < step.next) implies #[trigger] moved_at(
        display,
        after,
        node,
        by,
        handle,
    ) by {
        assert(same_at(display, mid, handle));
        lemma_replace_applied(mid, node, by, handle);
    }
}

/// Whether `handle` names a node of one of `trees`.
pub open spec fn named_in(trees: Seq<NodeView>, handle: Handle) -> bool {
    exists|i: int| 0 <= i < trees.len() && names(#[trigger] trees[i], handle)
}

/// Whether the object `shown` under `handle` has nothing to do with
/// `trees`: it is no node of them and has no node of them as a child.
pub open spec fn foreign(shown: Shown, trees: Seq<NodeView>, handle: Handle) -> bool {
    &&& !named_in(trees, handle)
    &&& forall|inner: Handle| #[trigger] named_in(trees, inner) ==> !mentions(shown, inner)
}

/// What reconciling a new tree against the shown tree `from` makes of the
/// display, when `step` is what reconciling leaves behind and `next` was
/// the next free handle: `after` shows the new tree. The root of the new
/// tree is the root of the old one, or it was drawn. The nodes of the
/// new tree are nodes of the old one or were drawn, and no handle names two
/// of them. An older object that is no node of the old tree and has none
/// of its nodes but perhaps the root as a child has the new root as a child
/// wherever it had the old root, and is as it was otherwise.
pub open spec fn reconciled(display: Display, after: Display, from: NodeView, step: Step, next: int) -> bool {
    &&& step.node.handle() is Some
    &&& step.node.handle() == from.handle() || next <= step.node.handle().unwrap() < step.next
    &&& shows(after, step.node)
    &&& plain(step.node)
    &&& separate(step.node)
    &&& forall|handle: Handle| #[trigger]
        names(step.node, handle) ==> names(from, handle) || next <= handle < step.next
    &&& forall|handle: Handle|
        !names(from, handle) && handle < next && display.contains_key(handle) && clear_of(display[handle], from)
            ==> #[trigger] moved_at(
            display,
            after,
            from.handle().unwrap(),
            step.node.handle().unwrap(),
            handle,
        )
}

/// The parts of [`reconciled`] make the whole.
proof fn lemma_reconciled(display: Display, after: Display, from: NodeView, step: Step, next: int)
    requires
        step.node.handle() is Some,
        step.node.handle() == from.handle() || next <= step.node.handle().unwrap() < step.next,
        shows(after, step.node),
        plain(step.node),
        separate(step.node),
        forall|handle: Handle| #[trigger]
            names(step.node, handle) ==> names(from, handle) || next <= handle < step.next,
        forall|handle: Handle|
            !names(from, handle) && handle < next && display.contains_key(handle) && clear_of(
                display[handle],
                from,
            ) ==> #[trigger] moved_at(
                display,
                after,
                from.handle().unwrap(),
                step.node.handle().unwrap(),
                handle,
            ),
    ensures
        reconciled(display, after, from, step, next),
{
}

/// A plain tree that the display shows is still shown after another tree
/// was reconciled, if no handle names nodes of both.
pub proof fn lemma_bystander_shown(
    display: Display,
    after: Display,
    from: NodeView,
    step: Step,
    next: int,
    tree: NodeView,
)
    requires
        reconciled(display, after, from, step, next),
        shows(display, from),
        plain(from),
        shows(display, tree),
        plain(tree),
        separate(tree),
        forall|handle: Handle| #[trigger] names(tree, handle) ==> !names(from, handle) && handle < next,
    ensures
        shows(after, tree),
{
    lemma_shown_root(display, from);
    let root = from.handle().unwrap();
    let by = step.node.handle().unwrap();
    assert forall|handle: Handle| #[trigger] names(tree, handle) && display.contains_key(
        handle,
    ) implies after.contains_key(handle) && after[handle] == display[handle] by {
        assert forall|inner: Handle| #[trigger] names(from, inner) implies !mentions(display[handle], inner) by {
            if mentions(display[handle], inner) {
                lemma_shown_mentions(display, tree, handle, inner);
            }
        }
        lemma_foreign_kept(display, after, from, step, next, handle);
    }
    lemma_shows_elsewhere(display, after, tree);
}

/// An older object that has nothing to do with a tree is as it was after
/// the tree was reconciled.
pub proof fn lemma_foreign_kept(
    display: Display,
    after: Display,
    from: NodeView,
    step: Step,
    next: int,
    handle: Handle,
)
    requires
        reconciled(display, after, from, step, next),
        shows(display, from),
        plain(from),
        handle < next,
        display.contains_key(handle),
        !names(from, handle),
        forall|inner: Handle| #[trigger] names(from, inner) ==> !mentions(display[handle], inner),
    ensures
        after.contains_key(handle),
        after[handle] == display[handle],
{
    lemma_shown_root(display, from);
    let root = from.handle().unwrap();
    let by = step.node.handle().unwrap();
    assert(clear_of(display[handle], from));
    assert(moved_at(display, after, root, by, handle));
    lemma_substituted_nothing(display[handle], root, by);
}

/// Whether the display shows the old children `from` of the container
/// `parent`, ready to be reconciled when `next` is the next free handle.
pub open spec fn children_ready(display: Display, parent: Handle, from: Seq<NodeView>, next: int) -> bool {
    &&& parent < next
    &&& 0 <= next
    &&& display.contains_key(parent)
    &&& display[parent] is Container
    &&& apart(from)
    &&& forall|i: int|
        0 <= i < from.len() ==> {
            &&& plain(#[trigger] from[i])
            &&& from[i].well_formed()
            &&& shows(display, from[i])
            &&& separate(from[i])
            &&& below(from[i], next)
            &&& !names(from[i], parent)
        }
}

/// What reconciling the first `n` pairs of children makes of the display,
/// when `kids` is what it leaves behind and `rest` are the children of the
/// container after them: the container has the new children in the places
/// of the old ones, the display shows them, and it still shows the old
/// children that were not reconciled. An older object that has nothing to
/// do with the old children is as it was.
pub open spec fn pairs_done(
    display: Display,
    after: Display,
    parent: Handle,
    from: Seq<NodeView>,
    n: nat,
    next: int,
    kids: Steps,
    rest: Seq<Handle>,
) -> bool {
    &&& kids.nodes.len() == n
    &&& next <= kids.next
    &&& after.contains_key(parent)
    &&& after[parent] == (Shown::Container {
        tag: display[parent]->tag,
        attrs: display[parent]->attrs,
        children: handles_of(kids.nodes) + rest,
    })
    &&& forall|i: int|
        0 <= i < n ==> {
            &&& shows(after, #[trigger] kids.nodes[i])
            &&& plain(kids.nodes[i])
            &&& separate(kids.nodes[i])
            &&& !names(kids.nodes[i], parent)
        }
    &&& forall|i: int, handle: Handle|
        0 <= i < n && #[trigger] names(kids.nodes[i], handle) ==> (i < from.len() && names(from[i], handle))
            || next <= handle < kids.next
    &&& apart(kids.nodes)
    &&& forall|i: int| n <= i < from.len() ==> shows(after, #[trigger] from[i])
    &&& forall|handle: Handle|
        handle != parent && handle < next && display.contains_key(handle) && foreign(
            display[handle],
            from,
            handle,
        ) ==> #[trigger] same_at(display, after, handle)
}

/// The parts of [`pairs_done`] make the whole.
proof fn lemma_pairs_done(
    display: Display,
    after: Display,
    parent: Handle,
    from: Seq<NodeView>,
    n: nat,
    next: int,
    kids: Steps,
    rest: Seq<Handle>,
)
    requires
        kids.nodes.len() == n,
        next <= kids.next,
        after.contains_key(parent),
        after[parent] == (Shown::Container {
            tag: display[parent]->tag,
            attrs: display[parent]->attrs,
            children: handles_of(kids.nodes) + rest,
        }),
        forall|i: int|
            0 <= i < n ==> {
                &&& shows(after, #[trigger] kids.nodes[i])
                &&& plain(kids.nodes[i])
                &&& separate(kids.nodes[i])
                &&& !names(kids.nodes[i], parent)
            },
        forall|i: int, handle: Handle|
            0 <= i < n && #[trigger] names(kids.nodes[i], handle) ==> (i < from.len() && names(from[i], handle))
                || next <= handle < kids.next,
        apart(kids.nodes),
        forall|i: int| n <= i < from.len() ==> shows(after, #[trigger] from[i]),
        forall|handle: Handle|
            handle != parent && handle < next && display.contains_key(handle) && foreign(
                display[handle],
                from,
                handle,
            ) ==> #[trigger] same_at(display, after, handle),
    ensures
        pairs_done(display, after, parent, from, n, next, kids, rest),
{
}

/// Where one entry of a list is `node` and no other is, putting `by` in the
/// place of `node` changes that entry only.
pub proof fn lemma_one_substituted(shown: Shown, at: int, node: Handle, by: Handle)
    requires
        shown is Container,
        0 <= at < shown->children.len(),
        shown->children[at] == node,
        forall|k: int| 0 <= k < shown->children.len() && k != at ==> shown->children[k] != node,
    ensures
        substituted(shown, node, by) == (Shown::Container {
            tag: shown->tag,
            attrs: shown->attrs,
            children: shown->children.update(at, by),
        }),
{
    assert(substituted(shown, node, by)->children =~= shown->children.update(at, by));
}

/// A node of a new child is no node of an old child at another place, and
/// is below the handles taken after the new children.
proof fn lemma_new_child_apart(
    from: Seq<NodeView>,
    kids: Seq<NodeView>,
    next: int,
    done: int,
    i: int,
    j: int,
    handle: Handle,
)
    requires
        apart(from),
        0 <= i < kids.len(),
        i < from.len(),
        0 <= j < from.len(),
        i != j,
        next <= done,
        below(from[i], next),
        below(from[j], next),
        names(kids[i], handle),
        names(from[i], handle) || next <= handle < done,
    ensures
        !names(from[j], handle),
        handle < done,
{
    if names(from[i], handle) {
        lemma_apart(from, i, j, handle);
    }
}

/// Reconciling one more pair of children keeps what reconciling the
/// pairs before it has made, and adds the new child of the pair to it.
proof fn lemma_pair_done(
    display: Display,
    first: Display,
    second: Display,
    parent: Handle,
    from: Seq<NodeView>,
    m: nat,
    next: int,
    before: Steps,
    last: Step,
    kids: Steps,
    rest: Seq<Handle>,
)
    requires
        children_ready(display, parent, from, next),
        m < from.len(),
        pairs_done(display, first, parent, from, m, next, before, seq![from[m as int].handle().unwrap()] + rest),
        forall|i: int, k: int| 0 <= i <= m && 0 <= k < rest.len() ==> !names(#[trigger] from[i], #[trigger] rest[k]),
        reconciled(first, second, from[m as int], last, before.next),
        before.next <= last.next,
        kids.nodes == before.nodes.push(last.node),
        kids.next == last.next,
    ensures
        pairs_done(display, second, parent, from, m + 1, next, kids, rest),
{
    let old_tree = from[m as int];
    let n = m + 1;
    assert(shows(first, old_tree));
    lemma_shown_root(first, old_tree);
    let root = old_tree.handle().unwrap();
    let by = last.node.handle().unwrap();
    let more = seq![root] + rest;
    let had = handles_of(before.nodes) + more;
    // The nodes of the new children before the last: none is a node of the old tree.
    assert forall|i: int, handle: Handle| 0 <= i < m && #[trigger] names(before.nodes[i], handle) implies !names(
        old_tree,
        handle,
    ) && handle < before.next by {
        lemma_new_child_apart(from, before.nodes, next, before.next, i, m as int, handle);
    }
    // The container has the new root where it had the old one.
    assert(second.contains_key(parent) && second[parent] == (Shown::Container {
        tag: display[parent]->tag,
        attrs: display[parent]->attrs,
        children: handles_of(kids.nodes) + rest,
    })) by {
        assert(first[parent]->children == had);
        assert(had[m as int] == root);
        assert forall|k: int| 0 <= k < had.len() && k != m implies !names(old_tree, had[k]) by {
            if k < m {
                lemma_shown_root(first, before.nodes[k]);
                assert(names(before.nodes[k], had[k]));
            } else {
                assert(had[k] == rest[k - m - 1]);
            }
        }
        assert(clear_of(first[parent], old_tree)) by {
            assert forall|inner: Handle| #[trigger] names(old_tree, inner) && Some(inner)
                != old_tree.handle() implies !mentions(first[parent], inner) by {
                if mentions(first[parent], inner) {
                    let at = had.index_of(inner);
                    assert(had[at] == inner);
                }
            }
        }
        assert(!names(old_tree, parent));
        assert(moved_at(first, second, root, by, parent));
        lemma_one_substituted(first[parent], m as int, root, by);
        assert(had.update(m as int, by) =~= handles_of(kids.nodes) + rest);
    }
    // The display shows the new children.
    assert forall|i: int| 0 <= i < n implies {
        &&& shows(second, #[trigger] kids.nodes[i])
        &&& plain(kids.nodes[i])
        &&& separate(kids.nodes[i])
        &&& !names(kids.nodes[i], parent)
    } by {
        if i < m {
            assert(kids.nodes[i] == before.nodes[i]);
            lemma_bystander_shown(first, second, old_tree, last, before.next, before.nodes[i]);
        } else {
            assert(kids.nodes[i] == last.node);
            assert(!names(old_tree, parent));
        }
    }
    assert forall|i: int, handle: Handle| 0 <= i < n && #[trigger] names(kids.nodes[i], handle) implies (i
        < from.len() && names(from[i], handle)) || next <= handle < kids.next by {
        if i < m {
            assert(kids.nodes[i] == before.nodes[i]);
        } else {
            assert(kids.nodes[i] == last.node);
        }
    }
    assert(apart(kids.nodes)) by {
        assert(apart(before.nodes));
        reveal(apart);
        assert forall|i: int, j: int, handle: Handle|
            0 <= i < n && 0 <= j < n && i != j && #[trigger] names(kids.nodes[i], handle) implies !#[trigger] names(
            kids.nodes[j],
            handle,
        ) by {
            if names(kids.nodes[j], handle) {
                if i < m && j < m {
                    assert(kids.nodes[i] == before.nodes[i]);
                    assert(kids.nodes[j] == before.nodes[j]);
                } else if i < m {
                    assert(kids.nodes[i] == before.nodes[i]);
                    assert(kids.nodes[j] == last.node);
                    assert(!names(old_tree, handle) && handle < before.next);
                } else {
                    assert(kids.nodes[j] == before.nodes[j]);
                    assert(kids.nodes[i] == last.node);
                    assert(!names(old_tree, handle) && handle < before.next);
                }
            }
        }
    }
    // The display still shows the old children after the pair.
    assert forall|i: int| n <= i < from.len() implies shows(second, #[trigger] from[i]) by {
        assert forall|handle: Handle| #[trigger] names(from[i], handle) implies !names(old_tree, handle) && handle
            < before.next by {
            lemma_apart(from, i, m as int, handle);
            assert(below(from[i], next));
        }
        lemma_bystander_shown(first, second, old_tree, last, before.next, from[i]);
    }
    // An older object that has nothing to do with the old children is as it was.
    assert forall|handle: Handle|
        handle != parent && handle < next && display.contains_key(handle) && foreign(
            display[handle],
            from,
            handle,
        ) implies #[trigger] same_at(display, second, handle) by {
        assert(same_at(display, first, handle));
        assert(!names(old_tree, handle)) by {
            if names(old_tree, handle) {
                assert(named_in(from, handle));
            }
        }
        assert forall|inner: Handle| #[trigger] names(old_tree, inner) implies !mentions(first[handle], inner) by {
            assert(named_in(from, inner));
        }
        lemma_foreign_kept(first, second, old_tree, last, before.next, handle);
    }
    lemma_pairs_done(display, second, parent, from, n as nat, next, kids, rest);
}

/// Reconciling the first `n` pairs of children makes the display show the
/// new ones in the places of the old ones under their container.
proof fn lemma_diffed_pairs_show(
    display: Display,
    widget: Seq<char>,
    parent: Handle,
    from: Seq<NodeView>,
    to: Seq<NodeView>,
    n: nat,
    next: int,
    rest: Seq<Handle>,
)
    requires
        children_ready(display, parent, from, next),
        n <= from.len(),
        n <= to.len(),
        forall|i: int| 0 <= i < n ==> plain(#[trigger] to[i]) && to[i].well_formed(),
        display[parent]->children == handles_of(from).take(n as int) + rest,
        forall|i: int, k: int| 0 <= i < n && 0 <= k < rest.len() ==> !names(#[trigger] from[i], #[trigger] rest[k]),
        diffed_pairs(widget, from, to, n, next).next <= u64::MAX,
    ensures
        pairs_done(
            display,
            applied_all(display, diffed_pairs(widget, from, to, n, next).patches),
            parent,
            from,
            n,
            next,
            diffed_pairs(widget, from, to, n, next),
            rest,
        ),
    decreases to, n,
{
    let pairs = diffed_pairs(widget, from, to, n, next);
    if n == 0 {
        assert(handles_of(from).take(0) + rest =~= handles_of(pairs.nodes) + rest);
        assert(apart(pairs.nodes)) by {
            reveal(apart);
        }
        assert forall|handle: Handle| true implies #[trigger] same_at(display, display, handle) by {}
        lemma_pairs_done(display, display, parent, from, n, next, pairs, rest);
    } else {
        let m = (n - 1) as nat;
        let before = diffed_pairs(widget, from, to, m, next);
        let old_tree = from[m as int];
        let last = diffed_node(widget, old_tree, to[m as int], before.next);
        lemma_diffed_pairs_next(widget, from, to, m, next);
        lemma_diffed_node_next(widget, old_tree, to[m as int], before.next);
        lemma_shown_root(display, old_tree);
        let root = old_tree.handle().unwrap();
        let more = seq![root] + rest;
        assert(handles_of(from).take(n as int) + rest =~= handles_of(from).take(m as int) + more);
        assert forall|i: int, k: int| 0 <= i < m && 0 <= k < more.len() implies !names(
            #[trigger] from[i],
            #[trigger] more[k],
        ) by {
            if k == 0 {
                if names(from[i], root) {
                    lemma_apart(from, i, m as int, root);
                }
            } else {
                assert(more[k] == rest[k - 1]);
            }
        }
        lemma_diffed_pairs_show(display, widget, parent, from, to, m, next, more);
        let first = applied_all(display, before.patches);
        assert(shows(first, old_tree));
        assert(below(old_tree, before.next)) by {
            assert(below(old_tree, next));
        }
        lemma_diffed_shows(first, widget, old_tree, to[m as int], before.next);
        let second = applied_all(first, last.patches);
        lemma_applied_all_concat(display, before.patches, last.patches);
        lemma_pair_done(display, first, second, parent, from, m, next, before, last, pairs, rest);
    }
}

/// Reconciling the children of a container makes the display show the new
/// children as the children of the container.
proof fn lemma_diffed_children_show(
    display: Display,
    widget: Seq<char>,
    parent: Handle,
    from: Seq<NodeView>,
    to: Seq<NodeView>,
    next: int,
)
    requires
        children_ready(display, parent, from, next),
        display[parent]->children == handles_of(from),
        forall|i: int| 0 <= i < to.len() ==> plain(#[trigger] to[i]) && to[i].well_formed(),
        diffed_children(widget, parent, from, to, next).next <= u64::MAX,
    ensures
        pairs_done(
            display,
            applied_all(display, diffed_children(widget, parent, from, to, next).patches),
            parent,
            from,
            to.len(),
            next,
            diffed_children(widget, parent, from, to, next),
            Seq::empty(),
        ),
    decreases to, to.len() + 2,
{
    if from.len() >= to.len() {
        lemma_shrunk_children_show(display, widget, parent, from, to, next);
    } else {
        lemma_grown_children_show(display, widget, parent, from, to, next);
    }
}

/// Reconciling the children of a container where the old list is at least
/// as long as the new one.
proof fn lemma_shrunk_children_show(
    display: Display,
    widget: Seq<char>,
    parent: Handle,
    from: Seq<NodeView>,
    to: Seq<NodeView>,
    next: int,
)
    requires
        from.len() >= to.len(),
        children_ready(display, parent, from, next),
        display[parent]->children == handles_of(from),
        forall|i: int| 0 <= i < to.len() ==> plain(#[trigger] to[i]) && to[i].well_formed(),
        diffed_children(widget, parent, from, to, next).next <= u64::MAX,
    ensures
        pairs_done(
            display,
            applied_all(display, diffed_children(widget, parent, from, to, next).patches),
            parent,
            from,
            to.len(),
            next,
            diffed_children(widget, parent, from, to, next),
            Seq::empty(),
        ),
    decreases to, to.len() + 1,
{
    let kids = diffed_children(widget, parent, from, to, next);
    let after = applied_all(display, kids.patches);
    let none = Seq::<Handle>::empty();
    let n = to.len();
    let gone = removals(parent, (from.len() - to.len()) as nat);
    let pairs = diffed_pairs(widget, from, to, n, next);
    lemma_removals_applied(display, parent, (from.len() - to.len()) as nat);
    let first = applied_all(display, gone);
    assert(first[parent]->children =~= handles_of(from).take(n as int) + none);
    assert(children_ready(first, parent, from, next)) by {
        assert forall|i: int| 0 <= i < from.len() implies shows(first, #[trigger] from[i]) by {
            assert forall|named: Handle| #[trigger] names(from[i], named) && display.contains_key(
                named,
            ) implies first.contains_key(named) && first[named] == display[named] by {}
            lemma_shows_elsewhere(display, first, from[i]);
        }
    }
    lemma_diffed_pairs_show(first, widget, parent, from, to, n, next, none);
    lemma_applied_all_concat(display, gone, pairs.patches);
    assert(after == applied_all(first, pairs.patches));
    assert forall|handle: Handle|
        handle != parent && handle < next && display.contains_key(handle) && foreign(
            display[handle],
            from,
            handle,
        ) implies #[trigger] same_at(display, after, handle) by {
        assert(same_at(display, first, handle));
        assert(same_at(first, after, handle));
    }
    lemma_pairs_done(display, after, parent, from, n, next, kids, none);
}

/// Reconciling the children of a container where the new list is longer
/// than the old one.
proof fn lemma_grown_children_show(
    display: Display,
    widget: Seq<char>,
    parent: Handle,
    from: Seq<NodeView>,
    to: Seq<NodeView>,
    next: int,
)
    requires
        from.len() < to.len(),
        children_ready(display, parent, from, next),
        display[parent]->children == handles_of(from),
        forall|i: int| 0 <= i < to.len() ==> plain(#[trigger] to[i]) && to[i].well_formed(),
        diffed_children(widget, parent, from, to, next).next <= u64::MAX,
    ensures
        pairs_done(
            display,
            applied_all(display, diffed_children(widget, parent, from, to, next).patches),
            parent,
            from,
            to.len(),
            next,
            diffed_children(widget, parent, from, to, next),
            Seq::empty(),
        ),
    decreases to, to.len() + 1,
{
    let kids = diffed_children(widget, parent, from, to, next);
    let after = applied_all(display, kids.patches);
    let none = Seq::<Handle>::empty();
    let n = from.len();
    let tail = to.skip(n as int);
    let grown = drawn_all(tail, next);
    let more = handles_of(grown.nodes);
    let added = appends(parent, more);
    let pairs = diffed_pairs(widget, from, to, n, grown.next);
    lemma_drawn_all_next(tail, next);
    lemma_diffed_pairs_next(widget, from, to, n, grown.next);
    assert forall|i: int| 0 <= i < tail.len() implies (#[trigger] tail[i]).well_formed() && plain(tail[i]) by {
        assert(tail[i] == to[n + i]);
    }
    // The new children that the old list lacks are drawn and appended.
    lemma_drawn_all_show(display, tail, next);
    let first = applied_all(display, grown.patches);
    assert(same_at(display, first, parent));
    lemma_appends_applied(first, parent, more);
    let second = applied_all(first, added);
    assert forall|handle: Handle| handle != parent && handle < next implies #[trigger] same_at(
        display,
        second,
        handle,
    ) by {
        assert(same_at(display, first, handle));
    }
    assert(children_ready(second, parent, from, grown.next)) by {
        assert forall|i: int| 0 <= i < from.len() implies shows(second, #[trigger] from[i]) && below(
            from[i],
            grown.next,
        ) by {
            assert(below(from[i], next));
            assert forall|named: Handle| #[trigger] names(from[i], named) && display.contains_key(
                named,
            ) implies second.contains_key(named) && second[named] == display[named] by {
                assert(same_at(display, second, named));
            }
            lemma_shows_elsewhere(display, second, from[i]);
        }
    }
    assert(second[parent]->children =~= handles_of(from).take(n as int) + more);
    assert forall|i: int, k: int| 0 <= i < n && 0 <= k < more.len() implies !names(
        #[trigger] from[i],
        #[trigger] more[k],
    ) by {
        assert(plain(tail[k]));
        lemma_shown_root(first, grown.nodes[k]);
        assert(names(grown.nodes[k], more[k]));
        assert(below(from[i], next));
    }
    // The pairs.
    lemma_diffed_pairs_show(second, widget, parent, from, to, n, grown.next, more);
    lemma_applied_all_concat(display, grown.patches, added);
    lemma_applied_all_concat(display, grown.patches + added, pairs.patches);
    assert(after == applied_all(second, pairs.patches));
    assert(handles_of(kids.nodes) + none =~= handles_of(pairs.nodes) + more);
    // The display shows all the new children.
    assert forall|i: int| 0 <= i < to.len() implies {
        &&& shows(after, #[trigger] kids.nodes[i])
        &&& plain(kids.nodes[i])
        &&& separate(kids.nodes[i])
        &&& !names(kids.nodes[i], parent)
    } by {
        if i < n {
            assert(kids.nodes[i] == pairs.nodes[i]);
        } else {
            let drawn = grown.nodes[i - n];
            assert(kids.nodes[i] == drawn);
            assert(plain(tail[i - n]));
            assert forall|handle: Handle| next <= handle < grown.next implies #[trigger] same_at(
                first,
                second,
                handle,
            ) by {}
            assert forall|j: int| 0 <= j < from.len() implies below(#[trigger] from[j], next) by {}
            lemma_drawn_bystander(second, after, parent, from, next, grown.next, first, drawn);
        }
    }
    assert forall|i: int, handle: Handle| 0 <= i < to.len() && #[trigger] names(kids.nodes[i], handle) implies (if i
        < n {
        names(from[i], handle) || grown.next <= handle < kids.next
    } else {
        next <= handle < grown.next
    }) by {
        if i < n {
            assert(kids.nodes[i] == pairs.nodes[i]);
        } else {
            assert(kids.nodes[i] == grown.nodes[i - n]);
        }
    }
    assert(apart(kids.nodes)) by {
        assert(apart(pairs.nodes));
        assert(apart(grown.nodes));
        reveal(apart);
        assert forall|i: int, j: int, handle: Handle|
            0 <= i < kids.nodes.len() && 0 <= j < kids.nodes.len() && i != j && #[trigger] names(
                kids.nodes[i],
                handle,
            ) implies !#[trigger] names(kids.nodes[j], handle) by {
            if names(kids.nodes[j], handle) {
                if i < n && j < n {
                    assert(kids.nodes[i] == pairs.nodes[i]);
                    assert(kids.nodes[j] == pairs.nodes[j]);
                } else if i >= n && j >= n {
                    assert(kids.nodes[i] == grown.nodes[i - n]);
                    assert(kids.nodes[j] == grown.nodes[j - n]);
                } else if i < n {
                    assert(below(from[i], next));
                } else {
                    assert(below(from[j], next));
                }
            }
        }
    }
    assert forall|handle: Handle|
        handle != parent && handle < next && display.contains_key(handle) && foreign(
            display[handle],
            from,
            handle,
        ) implies #[trigger] same_at(display, after, handle) by {
        assert(same_at(display, second, handle));
        assert(same_at(second, after, handle));
    }
    lemma_pairs_done(display, after, parent, from, to.len(), next, kids, none);
}

/// A tree that was drawn for a container is still shown after the old
/// children of the container were reconciled.
proof fn lemma_drawn_bystander(
    display: Display,
    after: Display,
    parent: Handle,
    from: Seq<NodeView>,
    low: int,
    next: int,
    before: Display,
    tree: NodeView,
)
    requires
        parent < low <= next,
        shows(before, tree),
        plain(tree),
        separate(tree),
        forall|handle: Handle| #[trigger] names(tree, handle) ==> low <= handle < next,
        forall|handle: Handle| low <= handle < next ==> #[trigger] same_at(before, display, handle),
        forall|i: int| 0 <= i < from.len() ==> below(#[trigger] from[i], low),
        forall|handle: Handle|
            handle != parent && handle < next && display.contains_key(handle) && foreign(
                display[handle],
                from,
                handle,
            ) ==> #[trigger] same_at(display, after, handle),
    ensures
        shows(after, tree),
        !names(tree, parent),
{
    assert forall|handle: Handle| #[trigger] names(tree, handle) && before.contains_key(
        handle,
    ) implies after.contains_key(handle) && after[handle] == before[handle] by {
        assert(same_at(before, display, handle));
        assert(foreign(display[handle], from, handle)) by {
            if named_in(from, handle) {
                let i = choose|i: int| 0 <= i < from.len() && names(#[trigger] from[i], handle);
                assert(below(from[i], low));
            }
            assert forall|inner: Handle| #[trigger] named_in(from, inner) implies !mentions(
                display[handle],
                inner,
            ) by {
                let i = choose|i: int| 0 <= i < from.len() && names(#[trigger] from[i], inner);
                assert(below(from[i], low));
                if mentions(before[handle], inner) {
                    lemma_shown_mentions(before, tree, handle, inner);
                }
            }
        }
        assert(same_at(display, after, handle));
    }
    lemma_shows_elsewhere(before, after, tree);
}

/// Reconciling a plain, well-formed tree against the plain, well-formed
/// tree that the display shows makes the display show the new tree: where
/// the patches that reconciling records are applied to a display that shows
/// `from`, the display shows what reconciling makes of `to`.
pub proof fn lemma_diffed_shows(display: Display, widget: Seq<char>, from: NodeView, to: NodeView, next: int)
    requires
        plain(from),
        plain(to),
        from.well_formed(),
        to.well_formed(),
        shows(display, from),
        separate(from),
        below(from, next),
        0 <= next,
        diffed_node(widget, from, to, next).next <= u64::MAX,
    ensures
        reconciled(
            display,
            applied_all(display, diffed_node(widget, from, to, next).patches),
            from,
            diffed_node(widget, from, to, next),
            next,
        ),
    decreases to, 0nat,
{
    lemma_shown_root(display, from);
    let root = from.handle().unwrap();
    let step = diffed_node(widget, from, to, next);
    let after = applied_all(display, step.patches);
    match (from, to) {
        (NodeView::Element(f), NodeView::Element(t)) => {
            if f.tag != t.tag {
                lemma_replaced_shows(display, root, to, next);
                lemma_put_in_place(display, after, from, step, next);
            } else {
                lemma_diffed_element_shows(display, widget, f, t, next);
            }
        },
        (NodeView::Text(f), NodeView::Text(t)) => {
            if f.val != t.val {
                lemma_applied_one(display, step.patches[0]);
            }
            assert forall|handle: Handle|
                !names(from, handle) && handle < next && display.contains_key(handle) && clear_of(
                    display[handle],
                    from,
                ) implies #[trigger] moved_at(display, after, root, root, handle) by {
                lemma_substituted_nothing(display[handle], root, root);
            }
            lemma_reconciled(display, after, from, step, next);
        },
        _ => {
            lemma_replaced_shows(display, root, to, next);
            lemma_put_in_place(display, after, from, step, next);
        },
    }
}

/// A tree that was put in the place of the root of an old tree is
/// reconciled against it.
proof fn lemma_put_in_place(display: Display, after: Display, from: NodeView, step: Step, next: int)
    requires
        from.handle() is Some,
        put_in_place(display, after, from.handle().unwrap(), step, next),
    ensures
        reconciled(display, after, from, step, next),
{
    let root = from.handle().unwrap();
    let by = step.node.handle().unwrap();
    assert forall|handle: Handle|
        !names(from, handle) && handle < next && display.contains_key(handle) && clear_of(
            display[handle],
            from,
        ) implies #[trigger] moved_at(display, after, root, by, handle) by {}
    lemma_reconciled(display, after, from, step, next);
}

/// Reconciling two plain, well-formed elements of the same tag makes the
/// display show the new one.
proof fn lemma_diffed_element_shows(display: Display, widget: Seq<char>, f: ElementView, t: ElementView, next: int)
    requires
        plain(NodeView::Element(f)),
        plain(NodeView::Element(t)),
        NodeView::Element(f).well_formed(),
        NodeView::Element(t).well_formed(),
        shows(display, NodeView::Element(f)),
        separate(NodeView::Element(f)),
        below(NodeView::Element(f), next),
        0 <= next,
        f.tag == t.tag,
        diffed_element(widget, f, t, next).next <= u64::MAX,
    ensures
        reconciled(
            display,
            applied_all(display, diffed_element(widget, f, t, next).patches),
            NodeView::Element(f),
            diffed_element(widget, f, t, next),
            next,
        ),
    decreases t, 0nat,
{
    let from = NodeView::Element(f);
    let handle = f.handle.unwrap();
    let step = diffed_element(widget, f, t, next);
    let attributes = diffed_attributes(handle, f.attrs, t.attrs);
    let children = diffed_children(widget, handle, f.children, t.children, next);
    let rebound = diffed_listeners(widget, handle, f.listeners, t.listeners, children.next);
    let after = applied_all(display, step.patches);
    assert(names(from, handle));
    // The attributes: only the container of the element changes.
    lemma_element_attributes_set(display, handle, f, t);
    let first = applied_all(display, attributes);
    // The children.
    lemma_stale_listeners(widget, handle, f.listeners, t.listeners, children.next);
    lemma_fresh_listeners(
        widget,
        handle,
        f.listeners,
        stale_listeners(widget, handle, f.listeners, t.listeners, children.next).listeners,
        stale_listeners(widget, handle, f.listeners, t.listeners, children.next).next,
    );
    assert(children_ready(first, handle, f.children, next)) by {
        assert forall|i: int| 0 <= i < f.children.len() implies shows(first, #[trigger] f.children[i]) && below(
            f.children[i],
            next,
        ) by {
            assert forall|named: Handle| #[trigger]
                names(f.children[i], named) && display.contains_key(named) implies first.contains_key(named)
                && first[named] == display[named] by {}
            lemma_shows_elsewhere(display, first, f.children[i]);
            assert forall|named: Handle| #[trigger] names(f.children[i], named) implies named < next by {
                assert(names(from, named));
            }
        }
    }
    lemma_diffed_children_show(first, widget, handle, f.children, t.children, next);
    let second = applied_all(first, children.patches);
    // The listeners: nothing that the display shows changes.
    lemma_listeners_keep_display(second, widget, handle, f.listeners, t.listeners, children.next);
    lemma_applied_all_concat(display, attributes, children.patches);
    lemma_applied_all_concat(display, attributes + children.patches, rebound.patches);
    assert(after == second);
    assert(handles_of(children.nodes) + Seq::<Handle>::empty() =~= handles_of(children.nodes));
    assert(shows(after, step.node));
    assert forall|named: Handle| #[trigger] names(step.node, named) implies names(from, named) || next <= named
        < step.next by {
        if named != handle {
            let i = choose|i: int| 0 <= i < children.nodes.len() && names(#[trigger] children.nodes[i], named);
            assert(names(children.nodes[i], named));
        }
    }
    assert forall|named: Handle|
        !names(from, named) && named < next && display.contains_key(named) && clear_of(
            display[named],
            from,
        ) implies #[trigger] moved_at(display, after, handle, handle, named) by {
        lemma_substituted_nothing(display[named], handle, handle);
        assert(same_at(display, first, named));
        assert(foreign(first[named], f.children, named)) by {
            if named_in(f.children, named) {
                let j = choose|j: int| 0 <= j < f.children.len() && names(#[trigger] f.children[j], named);
                assert(names(from, named));
            }
            assert forall|inner: Handle| #[trigger] named_in(f.children, inner) implies !mentions(
                first[named],
                inner,
            ) by {
                let j = choose|j: int| 0 <= j < f.children.len() && names(#[trigger] f.children[j], inner);
                assert(names(from, inner));
            }
        }
        assert(same_at(first, second, named));
    }
    lemma_reconciled(display, after, from, step, next);
}

/// Reconciling the attributes of two well-formed elements gives the
/// container of the old one the attributes of the new one, and changes
/// nothing else.
proof fn lemma_element_attributes_set(display: Display, handle: Handle, f: ElementView, t: ElementView)
    requires
        unique_keys(f.attrs),
        unique_keys(t.attrs),
        display.contains_key(handle),
        display[handle] == (Shown::Container {
            tag: f.tag,
            attrs: attribute_map(f.attrs),
            children: handles_of(f.children),
        }),
    ensures
        applied_all(display, diffed_attributes(handle, f.attrs, t.attrs)) == display.insert(
            handle,
            Shown::Container { tag: f.tag, attrs: attribute_map(t.attrs), children: handles_of(f.children) },
        ),
{
    let attributes = diffed_attributes(handle, f.attrs, t.attrs);
    lemma_attributes_symmetric_difference(handle, f.attrs, t.attrs);
    assert forall|k: int| 0 <= k < attributes.len() implies match #[trigger] attributes[k] {
        PatchView::SetAttribute { element: target, .. } => target == handle,
        PatchView::RemoveAttribute { element: target, .. } => target == handle,
        _ => false,
    } by {
        assert(owed(handle, f.attrs, t.attrs, attributes[k]));
    }
    lemma_attributes_patched(display, handle, attributes);
    lemma_attributes_reach_the_new(handle, f.attrs, t.attrs);
}

/// After reconciling, the new tree is what reconciling asks the old tree
/// to be next time: the display shows it, it is plain and well formed, no
/// handle names two nodes of it, and its nodes are below the next free
/// handle.
pub proof fn lemma_diffed_is_ready(display: Display, widget: Seq<char>, from: NodeView, to: NodeView, next: int)
    requires
        plain(from),
        plain(to),
        from.well_formed(),
        to.well_formed(),
        shows(display, from),
        separate(from),
        below(from, next),
        0 <= next,
        diffed_node(widget, from, to, next).next <= u64::MAX,
    ensures
        shows(applied_all(display, diffed_node(widget, from, to, next).patches), diffed_node(widget, from, to, next).node),
        plain(diffed_node(widget, from, to, next).node),
        diffed_node(widget, from, to, next).node.well_formed(),
        separate(diffed_node(widget, from, to, next).node),
        below(diffed_node(widget, from, to, next).node, diffed_node(widget, from, to, next).next),
        next <= diffed_node(widget, from, to, next).next,
{
    lemma_diffed_shows(display, widget, from, to, next);
    lemma_diffed_is_well_formed(widget, from, to, next);
    lemma_diffed_node_next(widget, from, to, next);
}

/// Wiring changes nothing that the display shows, and leaves the tree with
/// the nodes it had.
pub proof fn lemma_listened_shows(display: Display, widget: Seq<char>, tree: NodeView, next: int)
    ensures
        applied_all(display, listened_node(widget, tree, next).patches) == display,
        listened_node(widget, tree, next).node.handle() == tree.handle(),
        shows(display, tree) ==> shows(display, listened_node(widget, tree, next).node),
        plain(tree) ==> plain(listened_node(widget, tree, next).node),
        separate(tree) ==> separate(listened_node(widget, tree, next).node),
        forall|handle: Handle| #[trigger]
            names(listened_node(widget, tree, next).node, handle) == names(tree, handle),
    decreases tree,
{
    match tree {
        NodeView::Element(el) => {
            let bound = binding_patches(widget, el.handle.unwrap(), el.listeners, next);
            let children = listened_children(widget, el.children, next + el.listeners.len());
            lemma_bindings_keep_display(display, bound, bound.len() as int);
            assert(bound.take(bound.len() as int) =~= bound);
            lemma_listened_children_show(display, widget, el.children, next + el.listeners.len());
            lemma_applied_all_concat(display, bound, children.patches);
            let wired = listened_node(widget, tree, next).node;
            assert(handles_of(children.nodes) =~= handles_of(el.children));
            assert(wired.handle() == tree.handle());
            assert(wired->Element_0.children == children.nodes);
            assert forall|handle: Handle| #[trigger] names(wired, handle) == names(tree, handle) by {
                if names(wired, handle) && wired.handle() != Some(handle) {
                    let i = choose|i: int| 0 <= i < children.nodes.len() && names(#[trigger] children.nodes[i], handle);
                    let kid = children.nodes[i];
                    assert(names(kid, handle) == names(el.children[i], handle));
                    assert(names(el.children[i], handle));
                    assert(names(tree, handle));
                }
                if names(tree, handle) && tree.handle() != Some(handle) {
                    let i = choose|i: int| 0 <= i < el.children.len() && names(#[trigger] el.children[i], handle);
                    let kid = children.nodes[i];
                    assert(names(kid, handle) == names(el.children[i], handle));
                    assert(names(children.nodes[i], handle));
                    assert(names(wired, handle));
                }
            }
            if separate(tree) {
                assert(apart(children.nodes)) by {
                    reveal(apart);
                }
            }
        },
        _ => {},
    }
}

/// Patches that bind listeners change nothing that the display shows.
proof fn lemma_bindings_keep_display(display: Display, patches: Seq<PatchView>, n: int)
    requires
        0 <= n <= patches.len(),
        forall|k: int| 0 <= k < patches.len() ==> (#[trigger] patches[k]) is AddListener,
    ensures
        applied_all(display, patches.take(n)) == display,
    decreases n,
{
    if n > 0 {
        lemma_bindings_keep_display(display, patches, n - 1);
        assert(patches.take(n).drop_last() =~= patches.take(n - 1));
    }
}

/// Wiring a list of trees changes nothing that the display shows, and
/// leaves each tree with the nodes it had.
proof fn lemma_listened_children_show(display: Display, widget: Seq<char>, children: Seq<NodeView>, next: int)
    ensures
        applied_all(display, listened_children(widget, children, next).patches) == display,
        listened_children(widget, children, next).nodes.len() == children.len(),
        forall|i: int|
            0 <= i < children.len() ==> {
                let wired = #[trigger] listened_children(widget, children, next).nodes[i];
                &&& wired.handle() == children[i].handle()
                &&& shows(display, children[i]) ==> shows(display, wired)
                &&& plain(children[i]) ==> plain(wired)
                &&& separate(children[i]) ==> separate(wired)
                &&& forall|handle: Handle| #[trigger] names(wired, handle) == names(children[i], handle)
            },
    decreases children,
{
    if children.len() > 0 {
        let before = listened_children(widget, children.drop_last(), next);
        lemma_listened_children_show(display, widget, children.drop_last(), next);
        lemma_listened_shows(display, widget, children.last(), before.next);
        let last = listened_node(widget, children.last(), before.next);
        lemma_applied_all_concat(display, before.patches, last.patches);
        let all = listened_children(widget, children, next);
        assert forall|i: int| 0 <= i < children.len() implies {
            let wired = #[trigger] all.nodes[i];
            &&& wired.handle() == children[i].handle()
            &&& shows(display, children[i]) ==> shows(display, wired)
            &&& plain(children[i]) ==> plain(wired)
            &&& separate(children[i]) ==> separate(wired)
            &&& forall|handle: Handle| #[trigger] names(wired, handle) == names(children[i], handle)
        } by {
            if i < children.len() - 1 {
                assert(all.nodes[i] == before.nodes[i]);
                assert(children.drop_last()[i] == children[i]);
            }
        }
    }
}

/// Mounting a well-formed tree makes the display show it, ready to be
/// reconciled against: no handle names two nodes of it, and its nodes are
/// below the next free handle.
pub proof fn lemma_mounted_shows(display: Display, widget: Seq<char>, tree: NodeView, next: int)
    requires
        tree.well_formed(),
        0 <= next,
        mounted(widget, tree, next).next <= u64::MAX,
    ensures
        shows(applied_all(display, mounted(widget, tree, next).patches), mounted(widget, tree, next).node),
        mounted(widget, tree, next).node.well_formed(),
        separate(mounted(widget, tree, next).node),
        below(mounted(widget, tree, next).node, mounted(widget, tree, next).next),
        plain(tree) ==> plain(mounted(widget, tree, next).node),
{
    let drawn = drawn_node(tree, next);
    let wired = listened_node(widget, drawn.node, drawn.next);
    lemma_listened_next(widget, drawn.node, drawn.next);
    lemma_drawn_shows(display, tree, next);
    lemma_drawn_is_drawn(tree, next);
    let first = applied_all(display, drawn.patches);
    lemma_listened_shows(first, widget, drawn.node, drawn.next);
    lemma_listened_is_drawn(widget, drawn.node, drawn.next);
    lemma_applied_all_concat(display, drawn.patches, wired.patches);
}

} // verus!
