//! What holds of drawing and reconciling, whatever the trees.

use crate::diff::{
    detachable, diffed_attributes, diffed_children, diffed_element, diffed_listeners, diffed_node, diffed_pairs,
    fresh_attribute, fresh_attributes, fresh_listeners, lemma_diffed_pairs_next, lemma_fresh_listeners,
    lemma_stale_listeners, reconcilable, stale_attribute, stale_attributes, stale_listeners, Rebound,
};
use crate::draw::{
    drawn_all, drawn_children, drawn_node, handle_need_all, handles_of, lemma_drawn_all_next, lemma_drawn_next,
};
use crate::events::{
    bound_listeners, listened_children, listened_node, listener_count, listener_count_all, wirable, Listener,
};
use crate::keyed::{
    has_key, holds, keys, lemma_collect, lemma_collect_distinct, lemma_collect_nothing, lemma_has_key,
    lemma_position, lemma_unique_position, lookup, position, unique_keys,
};
use crate::nodes::node::{budget_all, NodeView, Step, Steps};
use crate::patch::{appends, removals};
use crate::surface::{Handle, PatchView};
use vstd::prelude::*;

verus! {

/// The attribute that `patch` sets or removes, if it does either.
pub open spec fn attribute_of(patch: PatchView) -> Option<Seq<char>> {
    match patch {
        PatchView::SetAttribute { name, .. } => Some(name),
        PatchView::RemoveAttribute { name, .. } => Some(name),
        _ => None,
    }
}

/// Whether `patch` is owed when the attributes of `element` go from `from`
/// to `to`: it sets an attribute to the value that `to` gives it where
/// `from` gives it none or another, or it removes an attribute that `from`
/// has and `to` lacks.
pub open spec fn owed(
    element: Handle,
    from: Seq<(Seq<char>, Seq<char>)>,
    to: Seq<(Seq<char>, Seq<char>)>,
    patch: PatchView,
) -> bool {
    match patch {
        PatchView::SetAttribute { element: target, name, value } => {
            &&& target == element
            &&& lookup(to, name) == Some(value)
            &&& lookup(from, name) != Some(value)
        },
        PatchView::RemoveAttribute { element: target, name } => {
            &&& target == element
            &&& has_key(from, name)
            &&& !has_key(to, name)
        },
        _ => false,
    }
}

/// Reconciling attributes patches the symmetric difference of the two
/// lists, and nothing else: every patch recorded is owed, every patch owed
/// is recorded, and no attribute is patched twice. So an attribute that
/// both lists give the same value, or that neither has, is not touched.
pub proof fn lemma_attributes_symmetric_difference(
    element: Handle,
    from: Seq<(Seq<char>, Seq<char>)>,
    to: Seq<(Seq<char>, Seq<char>)>,
)
    requires
        unique_keys(from),
        unique_keys(to),
    ensures
        forall|k: int|
            0 <= k < diffed_attributes(element, from, to).len() ==> owed(
                element,
                from,
                to,
                #[trigger] diffed_attributes(element, from, to)[k],
            ),
        forall|patch: PatchView|
            owed(element, from, to, patch) ==> #[trigger] diffed_attributes(element, from, to).contains(patch),
        forall|k: int, l: int|
            0 <= k < l < diffed_attributes(element, from, to).len() ==> attribute_of(
                diffed_attributes(element, from, to)[k],
            ) != attribute_of(diffed_attributes(element, from, to)[l]),
{
    let stale_options = Seq::new(from.len(), |i: int| stale_attribute(element, from[i], to));
    let fresh_options = Seq::new(to.len(), |i: int| fresh_attribute(element, to[i], from));
    let stale = stale_attributes(element, from, to);
    let fresh = fresh_attributes(element, from, to);
    let all = diffed_attributes(element, from, to);
    lemma_collect(stale_options);
    lemma_collect(fresh_options);
    // What each pass records is owed, and names an attribute of its list.
    assert forall|k: int| 0 <= k < stale.len() implies owed(element, from, to, #[trigger] stale[k]) && has_key(
        from,
        attribute_of(stale[k]).unwrap(),
    ) by {
        assert(holds(stale_options, stale[k]));
        let i = stale_options.index_of(Some(stale[k]));
        lemma_unique_position(from, i);
        lemma_position(to, from[i].0);
        lemma_has_key(to, from[i].0);
    }
    assert forall|k: int| 0 <= k < fresh.len() implies owed(element, from, to, #[trigger] fresh[k]) && !has_key(
        from,
        attribute_of(fresh[k]).unwrap(),
    ) by {
        assert(holds(fresh_options, fresh[k]));
        let i = fresh_options.index_of(Some(fresh[k]));
        lemma_unique_position(to, i);
        lemma_has_key(from, to[i].0);
    }
    assert forall|k: int| 0 <= k < all.len() implies owed(element, from, to, #[trigger] all[k]) by {
        if k < stale.len() {
            assert(all[k] == stale[k]);
        } else {
            assert(all[k] == fresh[k - stale.len()]);
        }
    }
    // What is owed is recorded by the pass over the list that has the attribute.
    assert forall|patch: PatchView| owed(element, from, to, patch) implies #[trigger] all.contains(patch) by {
        let name = attribute_of(patch).unwrap();
        lemma_position(from, name);
        lemma_position(to, name);
        lemma_has_key(from, name);
        lemma_has_key(to, name);
        if has_key(from, name) {
            let i = position(from, name).unwrap();
            assert(stale_options[i] == Some(patch));
            assert(holds(stale_options, patch));
            assert(stale.contains(patch));
            let k = stale.index_of(patch);
            assert(all[k] == patch);
        } else {
            let i = position(to, name).unwrap();
            assert(fresh_options[i] == Some(patch));
            assert(holds(fresh_options, patch));
            assert(fresh.contains(patch));
            let k = fresh.index_of(patch);
            assert(all[stale.len() + k] == patch);
        }
    }
    // No attribute is patched twice.
    let name_of = |patch: PatchView| attribute_of(patch);
    assert forall|i: int, j: int|
        0 <= i < j < stale_options.len() && stale_options[i] is Some
            && stale_options[j] is Some implies name_of(stale_options[i].unwrap()) != name_of(
        stale_options[j].unwrap(),
    ) by {
        assert(keys(from)[i] == from[i].0 && keys(from)[j] == from[j].0);
    }
    assert forall|i: int, j: int|
        0 <= i < j < fresh_options.len() && fresh_options[i] is Some
            && fresh_options[j] is Some implies name_of(fresh_options[i].unwrap()) != name_of(
        fresh_options[j].unwrap(),
    ) by {
        assert(keys(to)[i] == to[i].0 && keys(to)[j] == to[j].0);
    }
    lemma_collect_distinct(stale_options, name_of);
    lemma_collect_distinct(fresh_options, name_of);
    assert forall|k: int, l: int| 0 <= k < l < all.len() implies attribute_of(all[k]) != attribute_of(all[l]) by {
        if l < stale.len() {
            assert(all[k] == stale[k] && all[l] == stale[l]);
        } else if k >= stale.len() {
            assert(all[k] == fresh[k - stale.len()] && all[l] == fresh[l - stale.len()]);
        } else {
            assert(all[k] == stale[k] && all[l] == fresh[l - stale.len()]);
        }
    }
}

/// The attributes `attrs` as a map from names to values.
pub open spec fn attribute_map(attrs: Seq<(Seq<char>, Seq<char>)>) -> Map<Seq<char>, Seq<char>> {
    Map::new(|name: Seq<char>| has_key(attrs, name), |name: Seq<char>| lookup(attrs, name).unwrap())
}

/// The attributes that an object shows after `patch` is applied to it,
/// when it showed `shown` before.
pub open spec fn attribute_applied(shown: Map<Seq<char>, Seq<char>>, patch: PatchView) -> Map<
    Seq<char>,
    Seq<char>,
> {
    match patch {
        PatchView::SetAttribute { name, value, .. } => shown.insert(name, value),
        PatchView::RemoveAttribute { name, .. } => shown.remove(name),
        _ => shown,
    }
}

/// The attributes that an object shows after `patches` are applied to it in
/// order, when it showed `shown` before.
pub open spec fn attributes_applied(shown: Map<Seq<char>, Seq<char>>, patches: Seq<PatchView>) -> Map<
    Seq<char>,
    Seq<char>,
>
    decreases patches.len(),
{
    if patches.len() == 0 {
        shown
    } else {
        attribute_applied(attributes_applied(shown, patches.drop_last()), patches.last())
    }
}

/// Whether `shown` gives `name` what `patch` says, if `patch` is about
/// `name`, and what `before` gives it otherwise.
pub open spec fn follows(
    shown: Map<Seq<char>, Seq<char>>,
    before: Map<Seq<char>, Seq<char>>,
    patch: PatchView,
    name: Seq<char>,
) -> bool {
    match patch {
        PatchView::SetAttribute { name: set, value, .. } if set == name => shown.contains_key(name) && shown[name]
            == value,
        PatchView::RemoveAttribute { name: removed, .. } if removed == name => !shown.contains_key(name),
        _ => shown.contains_key(name) == before.contains_key(name) && (shown.contains_key(name) ==> shown[name]
            == before[name]),
    }
}

/// Where no two patches are about the same attribute, applying them gives
/// each attribute what the one patch about it says, and leaves an attribute
/// that no patch is about as it was.
pub proof fn lemma_attributes_applied(shown: Map<Seq<char>, Seq<char>>, patches: Seq<PatchView>, name: Seq<char>)
    requires
        forall|k: int, l: int| 0 <= k < l < patches.len() ==> attribute_of(patches[k]) != attribute_of(patches[l]),
    ensures
        forall|k: int|
            0 <= k < patches.len() && attribute_of(#[trigger] patches[k]) == Some(name) ==> follows(
                attributes_applied(shown, patches),
                shown,
                patches[k],
                name,
            ),
        (forall|k: int| 0 <= k < patches.len() ==> attribute_of(#[trigger] patches[k]) != Some(name)) ==> {
            let after = attributes_applied(shown, patches);
            after.contains_key(name) == shown.contains_key(name) && (after.contains_key(name) ==> after[name]
                == shown[name])
        },
    decreases patches.len(),
{
    if patches.len() > 0 {
        let rest = patches.drop_last();
        assert forall|k: int, l: int| 0 <= k < l < rest.len() implies attribute_of(rest[k]) != attribute_of(
            rest[l],
        ) by {
            assert(rest[k] == patches[k] && rest[l] == patches[l]);
        }
        lemma_attributes_applied(shown, rest, name);
        let after = attributes_applied(shown, patches);
        assert forall|k: int| 0 <= k < patches.len() && attribute_of(#[trigger] patches[k]) == Some(
            name,
        ) implies follows(after, shown, patches[k], name) by {
            if k < rest.len() {
                assert(rest[k] == patches[k]);
                assert(attribute_of(patches[k]) != attribute_of(patches[patches.len() - 1]));
            }
        }
        if forall|k: int| 0 <= k < patches.len() ==> attribute_of(#[trigger] patches[k]) != Some(name) {
            assert forall|k: int| 0 <= k < rest.len() implies attribute_of(#[trigger] rest[k]) != Some(name) by {
                assert(rest[k] == patches[k]);
            }
            assert(attribute_of(patches[patches.len() - 1]) != Some(name));
        }
    }
}

/// Reconciling attributes takes the object from the old attributes to the
/// new ones: an object that shows the attributes `from` shows the
/// attributes `to` once the recorded patches are applied to it.
pub proof fn lemma_attributes_reach_the_new(
    element: Handle,
    from: Seq<(Seq<char>, Seq<char>)>,
    to: Seq<(Seq<char>, Seq<char>)>,
)
    requires
        unique_keys(from),
        unique_keys(to),
    ensures
        attributes_applied(attribute_map(from), diffed_attributes(element, from, to)) == attribute_map(to),
{
    let patches = diffed_attributes(element, from, to);
    let shown = attribute_map(from);
    let after = attributes_applied(shown, patches);
    let wanted = attribute_map(to);
    lemma_attributes_symmetric_difference(element, from, to);
    assert forall|name: Seq<char>|
        #![trigger after.dom().contains(name)]
        #![trigger wanted.dom().contains(name)]
        after.dom().contains(name) == wanted.dom().contains(name) && (after.dom().contains(name) ==> after[name]
            == wanted[name]) by {
        lemma_attributes_applied(shown, patches, name);
        lemma_has_key(from, name);
        lemma_has_key(to, name);
        if exists|k: int| 0 <= k < patches.len() && attribute_of(#[trigger] patches[k]) == Some(name) {
            let k = choose|k: int| 0 <= k < patches.len() && attribute_of(#[trigger] patches[k]) == Some(name);
            assert(owed(element, from, to, patches[k]));
            assert(follows(after, shown, patches[k], name));
        } else {
            if has_key(to, name) {
                let value = lookup(to, name).unwrap();
                if lookup(from, name) != Some(value) {
                    let patch = PatchView::SetAttribute { element, name, value };
                    assert(owed(element, from, to, patch));
                    assert(patches.contains(patch));
                    let k = patches.index_of(patch);
                    assert(attribute_of(patches[k]) == Some(name));
                }
            } else if has_key(from, name) {
                let patch = PatchView::RemoveAttribute { element, name };
                assert(owed(element, from, to, patch));
                assert(patches.contains(patch));
                let k = patches.index_of(patch);
                assert(attribute_of(patches[k]) == Some(name));
            }
        }
    }
    assert(after =~= wanted);
}

/// Reconciling a list of attributes with unique names against itself
/// records no patch.
pub proof fn lemma_attributes_against_themselves(element: Handle, attrs: Seq<(Seq<char>, Seq<char>)>)
    requires
        unique_keys(attrs),
    ensures
        diffed_attributes(element, attrs, attrs) == Seq::<PatchView>::empty(),
{
    let stale_options = Seq::new(attrs.len(), |i: int| stale_attribute(element, attrs[i], attrs));
    let fresh_options = Seq::new(attrs.len(), |i: int| fresh_attribute(element, attrs[i], attrs));
    assert forall|i: int| 0 <= i < attrs.len() implies stale_options[i] is None && fresh_options[i] is None by {
        lemma_unique_position(attrs, i);
    }
    lemma_collect_nothing(stale_options);
    lemma_collect_nothing(fresh_options);
}

/// Reconciling a list of listeners with unique events against itself
/// records no patch, takes no handle and leaves the listeners as they are.
pub proof fn lemma_listeners_against_themselves(
    widget: Seq<char>,
    element: Handle,
    listeners: Seq<(Seq<char>, Listener)>,
    next: int,
)
    requires
        unique_keys(listeners),
    ensures
        detachable(listeners, listeners),
        diffed_listeners(widget, element, listeners, listeners, next) == (Rebound {
            listeners,
            patches: Seq::empty(),
            next,
        }),
{
    assert forall|i: int| 0 <= i < listeners.len() implies position(listeners, (#[trigger] listeners[i]).0)
        is Some by {
        lemma_unique_position(listeners, i);
    }
    lemma_stale_against_themselves(widget, element, listeners, next, listeners.len() as int);
    assert(listeners.take(listeners.len() as int) =~= listeners);
    lemma_fresh_against_themselves(widget, element, listeners, next, listeners.len() as int);
    assert(Seq::<PatchView>::empty() + Seq::<PatchView>::empty() =~= Seq::<PatchView>::empty());
}

/// Going through a prefix of the listeners as the old ones, against all of
/// them as the new ones, changes nothing.
proof fn lemma_stale_against_themselves(
    widget: Seq<char>,
    element: Handle,
    listeners: Seq<(Seq<char>, Listener)>,
    next: int,
    n: int,
)
    requires
        unique_keys(listeners),
        0 <= n <= listeners.len(),
    ensures
        stale_listeners(widget, element, listeners.take(n), listeners, next) == (Rebound {
            listeners,
            patches: Seq::empty(),
            next,
        }),
    decreases n,
{
    if n > 0 {
        lemma_stale_against_themselves(widget, element, listeners, next, n - 1);
        assert(listeners.take(n).drop_last() =~= listeners.take(n - 1));
        lemma_unique_position(listeners, n - 1);
    }
}

/// Going through a prefix of the listeners as the new ones, against all of
/// them as the old ones, changes nothing.
proof fn lemma_fresh_against_themselves(
    widget: Seq<char>,
    element: Handle,
    listeners: Seq<(Seq<char>, Listener)>,
    next: int,
    n: int,
)
    requires
        unique_keys(listeners),
        0 <= n <= listeners.len(),
    ensures
        fresh_listeners(widget, element, listeners, listeners.take(n), next) == (Rebound {
            listeners: listeners.take(n),
            patches: Seq::empty(),
            next,
        }),
    decreases n,
{
    if n > 0 {
        lemma_fresh_against_themselves(widget, element, listeners, next, n - 1);
        assert(listeners.take(n).drop_last() =~= listeners.take(n - 1));
        lemma_unique_position(listeners, n - 1);
        assert(listeners.take(n - 1).push(listeners[n - 1]) =~= listeners.take(n));
    } else {
        assert(listeners.take(0) =~= Seq::empty());
    }
}

/// Reconciling a drawn, well-formed tree against itself can always be
/// done, records no patch, takes no handle and leaves the tree as it is.
pub proof fn lemma_diff_against_itself(widget: Seq<char>, tree: NodeView, next: int)
    requires
        tree.well_formed(),
        tree.drawn(),
    ensures
        reconcilable(tree, tree),
        diffed_node(widget, tree, tree, next) == (Step { node: tree, patches: Seq::empty(), next }),
    decreases tree, 0nat,
{
    match tree {
        NodeView::Element(el) => {
            let handle = el.handle.unwrap();
            lemma_attributes_against_themselves(handle, el.attrs);
            lemma_pairs_against_themselves(widget, el.children, el.children.len(), next);
            assert(el.children.take(el.children.len() as int) =~= el.children);
            assert(removals(handle, 0) =~= Seq::empty());
            lemma_listeners_against_themselves(widget, handle, el.listeners, next);
            let children = diffed_children(widget, handle, el.children, el.children, next);
            assert(children.patches =~= Seq::empty());
            assert(diffed_element(widget, el, el, next).patches =~= Seq::empty());
        },
        _ => {},
    }
}

/// Reconciling the first `n` of drawn, well-formed children against
/// themselves changes nothing.
proof fn lemma_pairs_against_themselves(widget: Seq<char>, children: Seq<NodeView>, n: nat, next: int)
    requires
        n <= children.len(),
        forall|i: int| 0 <= i < children.len() ==> (#[trigger] children[i]).well_formed(),
        forall|i: int| 0 <= i < children.len() ==> (#[trigger] children[i]).drawn(),
    ensures
        forall|i: int| 0 <= i < n ==> reconcilable(children[i], #[trigger] children[i]),
        diffed_pairs(widget, children, children, n, next) == (Steps {
            nodes: children.take(n as int),
            patches: Seq::empty(),
            next,
        }),
    decreases children, n,
{
    if n > 0 {
        lemma_pairs_against_themselves(widget, children, (n - 1) as nat, next);
        lemma_diff_against_itself(widget, children[n - 1], next);
        assert(children.take(n - 1).push(children[n - 1]) =~= children.take(n as int));
        assert(Seq::<PatchView>::empty() + Seq::<PatchView>::empty() =~= Seq::<PatchView>::empty());
    } else {
        assert(children.take(0) =~= Seq::empty());
    }
}

/// The next free handle when reconciling children comes to the pairs at
/// the same position: what there is after the children that the new list
/// has more were drawn.
pub open spec fn pairs_start(from: Seq<NodeView>, to: Seq<NodeView>, next: int) -> int {
    if from.len() >= to.len() {
        next
    } else {
        drawn_all(to.skip(from.len() as int), next).next
    }
}

/// Reconciling pairs reconciles each pair in place: the node at position
/// `i` is what reconciling the two nodes at that position gives, after the
/// pairs before it.
pub proof fn lemma_pairs_in_place(
    widget: Seq<char>,
    from: Seq<NodeView>,
    to: Seq<NodeView>,
    n: nat,
    next: int,
    i: int,
)
    requires
        n <= from.len(),
        n <= to.len(),
        0 <= i < n,
    ensures
        diffed_pairs(widget, from, to, n, next).nodes.len() == n,
        diffed_pairs(widget, from, to, n, next).nodes[i] == diffed_node(
            widget,
            from[i],
            to[i],
            diffed_pairs(widget, from, to, i as nat, next).next,
        ).node,
    decreases n,
{
    lemma_diffed_pairs_next(widget, from, to, n, next);
    lemma_diffed_pairs_next(widget, from, to, (n - 1) as nat, next);
    if i < n - 1 {
        lemma_pairs_in_place(widget, from, to, (n - 1) as nat, next, i);
    }
}

/// Drawing a list draws each node in place: the node at position `i` is
/// what drawing the node at that position gives, after the nodes before
/// it.
pub proof fn lemma_drawn_all_in_place(nodes: Seq<NodeView>, next: int, i: int)
    requires
        0 <= i < nodes.len(),
    ensures
        drawn_all(nodes, next).nodes.len() == nodes.len(),
        drawn_all(nodes, next).nodes[i] == drawn_node(nodes[i], drawn_all(nodes.take(i), next).next).node,
    decreases nodes.len(),
{
    lemma_drawn_all_next(nodes, next);
    lemma_drawn_all_next(nodes.drop_last(), next);
    if i < nodes.len() - 1 {
        lemma_drawn_all_in_place(nodes.drop_last(), next, i);
        assert(nodes.drop_last().take(i) =~= nodes.take(i));
    } else {
        assert(nodes.drop_last() =~= nodes.take(i));
    }
}

/// Reconciling the children of an element changes the child list of its
/// container at the tail only. Where the old list is at least as long as
/// the new one, the container loses exactly as many last children as the
/// old list has more, and gains none. Where the new list is longer, each
/// child that it has more is drawn, and exactly these are appended to the
/// container, in their order. Either way the new list comes back whole,
/// each child at a position that both lists have was reconciled against
/// the old child at that position, and nothing else is recorded.
pub proof fn lemma_children_change_at_the_tail(
    widget: Seq<char>,
    parent: Handle,
    from: Seq<NodeView>,
    to: Seq<NodeView>,
    next: int,
)
    ensures
        ({
            let changed = diffed_children(widget, parent, from, to, next);
            let kept = if from.len() <= to.len() {
                from.len()
            } else {
                to.len()
            };
            let grown = drawn_all(to.skip(from.len() as int), next);
            let first = pairs_start(from, to, next);
            let pairs = diffed_pairs(widget, from, to, kept, first);
            &&& changed.nodes.len() == to.len()
            &&& from.len() >= to.len() ==> {
                &&& changed.patches == removals(parent, (from.len() - to.len()) as nat) + pairs.patches
                &&& removals(parent, (from.len() - to.len()) as nat).len() == from.len() - to.len()
                &&& forall|k: int|
                    0 <= k < from.len() - to.len() ==> #[trigger] changed.patches[k]
                        == (PatchView::RemoveLastChild { parent })
            }
            &&& from.len() < to.len() ==> {
                &&& changed.patches == grown.patches + appends(parent, handles_of(grown.nodes)) + pairs.patches
                &&& appends(parent, handles_of(grown.nodes)).len() == to.len() - from.len()
                &&& forall|k: int|
                    0 <= k < to.len() - from.len() ==> {
                        &&& #[trigger] changed.nodes[from.len() + k] == drawn_node(
                            to[from.len() + k],
                            drawn_all(to.skip(from.len() as int).take(k), next).next,
                        ).node
                        &&& changed.patches[grown.patches.len() + k] == (PatchView::AppendChild {
                            parent,
                            child: changed.nodes[from.len() + k].handle().unwrap(),
                        })
                    }
            }
            &&& forall|i: int|
                0 <= i < kept ==> #[trigger] changed.nodes[i] == diffed_node(
                    widget,
                    from[i],
                    to[i],
                    diffed_pairs(widget, from, to, i as nat, first).next,
                ).node
        }),
{
    let changed = diffed_children(widget, parent, from, to, next);
    let kept = if from.len() <= to.len() {
        from.len()
    } else {
        to.len()
    };
    let tail = to.skip(from.len() as int);
    let grown = drawn_all(tail, next);
    let first = pairs_start(from, to, next);
    let pairs = diffed_pairs(widget, from, to, kept, first);
    lemma_diffed_pairs_next(widget, from, to, kept, first);
    assert forall|i: int| 0 <= i < kept implies #[trigger] changed.nodes[i] == diffed_node(
        widget,
        from[i],
        to[i],
        diffed_pairs(widget, from, to, i as nat, first).next,
    ).node by {
        lemma_pairs_in_place(widget, from, to, kept, first, i);
    }
    if from.len() < to.len() {
        lemma_drawn_all_next(tail, next);
        assert forall|k: int| 0 <= k < to.len() - from.len() implies {
            &&& #[trigger] changed.nodes[from.len() + k] == drawn_node(
                to[from.len() + k],
                drawn_all(tail.take(k), next).next,
            ).node
            &&& changed.patches[grown.patches.len() + k] == (PatchView::AppendChild {
                parent,
                child: changed.nodes[from.len() + k].handle().unwrap(),
            })
        } by {
            lemma_drawn_all_in_place(tail, next, k);
        }
    }
}

/// The handles that a list needs are those that a prefix of it needs and
/// those that the rest needs.
pub proof fn lemma_handle_need_all_split(nodes: Seq<NodeView>, n: int)
    requires
        0 <= n <= nodes.len(),
    ensures
        handle_need_all(nodes) == handle_need_all(nodes.take(n)) + handle_need_all(nodes.skip(n)),
    decreases nodes.len(),
{
    if n < nodes.len() {
        assert(nodes.drop_last().take(n) =~= nodes.take(n));
        assert(nodes.drop_last().skip(n) =~= nodes.skip(n).drop_last());
        lemma_handle_need_all_split(nodes.drop_last(), n);
    } else {
        assert(nodes.take(n) =~= nodes);
        assert(nodes.skip(n) =~= Seq::empty());
    }
}

/// The listeners that a list holds are those that a prefix of it holds and
/// those that the rest holds.
pub proof fn lemma_listener_count_all_split(nodes: Seq<NodeView>, n: int)
    requires
        0 <= n <= nodes.len(),
    ensures
        listener_count_all(nodes) == listener_count_all(nodes.take(n)) + listener_count_all(nodes.skip(n)),
    decreases nodes.len(),
{
    if n < nodes.len() {
        assert(nodes.drop_last().take(n) =~= nodes.take(n));
        assert(nodes.drop_last().skip(n) =~= nodes.skip(n).drop_last());
        lemma_listener_count_all_split(nodes.drop_last(), n);
    } else {
        assert(nodes.take(n) =~= nodes);
        assert(nodes.skip(n) =~= Seq::empty());
    }
}

/// Reconciling takes no more handles than the budgets of the two trees
/// together.
pub proof fn lemma_diffed_within_budget(widget: Seq<char>, from: NodeView, to: NodeView, next: int)
    ensures
        next <= diffed_node(widget, from, to, next).next <= next + from.budget() + to.budget(),
    decreases to, 0nat,
{
    match (from, to) {
        (NodeView::Element(f), NodeView::Element(t)) => {
            if f.tag != t.tag {
                lemma_drawn_next(to, next);
            } else {
                let handle = f.handle.unwrap();
                lemma_children_within_budget(widget, handle, f.children, t.children, next);
                let children = diffed_children(widget, handle, f.children, t.children, next);
                lemma_stale_listeners(widget, handle, f.listeners, t.listeners, children.next);
                let stale = stale_listeners(widget, handle, f.listeners, t.listeners, children.next);
                lemma_fresh_listeners(widget, handle, f.listeners, stale.listeners, stale.next);
            }
        },
        (NodeView::Text(_), NodeView::Text(_)) => {},
        (NodeView::Widget(_), NodeView::Widget(_)) => {},
        _ => {
            lemma_drawn_next(to, next);
        },
    }
}

/// Reconciling the children of an element takes no more handles than the
/// budgets of the two lists together.
pub proof fn lemma_children_within_budget(
    widget: Seq<char>,
    parent: Handle,
    from: Seq<NodeView>,
    to: Seq<NodeView>,
    next: int,
)
    ensures
        next <= diffed_children(widget, parent, from, to, next).next <= next + budget_all(from) + budget_all(to),
    decreases to, to.len() + 1,
{
    if from.len() >= to.len() {
        lemma_pairs_within_budget(widget, from, to, to.len(), next);
        assert(to.take(to.len() as int) =~= to);
        lemma_handle_need_all_split(from, to.len() as int);
        lemma_listener_count_all_split(from, to.len() as int);
    } else {
        let tail = to.skip(from.len() as int);
        lemma_drawn_all_next(tail, next);
        let grown = drawn_all(tail, next);
        lemma_pairs_within_budget(widget, from, to, from.len(), grown.next);
        assert(from.take(from.len() as int) =~= from);
        lemma_handle_need_all_split(to, from.len() as int);
        lemma_listener_count_all_split(to, from.len() as int);
    }
}

/// Reconciling pairs takes no more handles than the budgets of the nodes
/// in the pairs together.
pub proof fn lemma_pairs_within_budget(widget: Seq<char>, from: Seq<NodeView>, to: Seq<NodeView>, n: nat, next: int)
    requires
        n <= from.len(),
        n <= to.len(),
    ensures
        next <= diffed_pairs(widget, from, to, n, next).next <= next + budget_all(from.take(n as int))
            + budget_all(to.take(n as int)),
    decreases to, n,
{
    if n > 0 {
        lemma_pairs_within_budget(widget, from, to, (n - 1) as nat, next);
        let before = diffed_pairs(widget, from, to, (n - 1) as nat, next);
        lemma_diffed_within_budget(widget, from[n - 1], to[n - 1], before.next);
        assert(from.take(n as int).drop_last() =~= from.take(n - 1));
        assert(to.take(n as int).drop_last() =~= to.take(n - 1));
    }
}

/// A drawn tree can be wired.
pub proof fn lemma_drawn_is_wirable(tree: NodeView)
    requires
        tree.drawn(),
    ensures
        wirable(tree),
    decreases tree,
{
    match tree {
        NodeView::Element(el) => {
            assert forall|i: int| 0 <= i < el.children.len() implies wirable(#[trigger] el.children[i]) by {
                lemma_drawn_is_wirable(el.children[i]);
            }
        },
        _ => {},
    }
}

/// Drawing leaves a drawn tree that holds the listeners it held, and is
/// well formed if it was.
pub proof fn lemma_drawn_is_drawn(tree: NodeView, next: int)
    ensures
        drawn_node(tree, next).node.drawn(),
        listener_count(drawn_node(tree, next).node) == listener_count(tree),
        tree.well_formed() ==> drawn_node(tree, next).node.well_formed(),
    decreases tree,
{
    match tree {
        NodeView::Element(el) => {
            lemma_drawn_children_are_drawn(next as Handle, el.children, next + 1);
        },
        _ => {},
    }
}

/// Drawing a list leaves drawn trees that hold the listeners they held,
/// each well formed if it was.
pub proof fn lemma_drawn_children_are_drawn(parent: Handle, children: Seq<NodeView>, next: int)
    ensures
        drawn_children(parent, children, next).nodes.len() == children.len(),
        forall|i: int|
            0 <= i < children.len() ==> (#[trigger] drawn_children(parent, children, next).nodes[i]).drawn(),
        forall|i: int|
            0 <= i < children.len() && children[i].well_formed() ==> (#[trigger] drawn_children(
                parent,
                children,
                next,
            ).nodes[i]).well_formed(),
        listener_count_all(drawn_children(parent, children, next).nodes) == listener_count_all(children),
    decreases children,
{
    if children.len() > 0 {
        let before = drawn_children(parent, children.drop_last(), next);
        lemma_drawn_children_are_drawn(parent, children.drop_last(), next);
        lemma_drawn_is_drawn(children.last(), before.next);
        let all = drawn_children(parent, children, next);
        assert(all.nodes.drop_last() =~= before.nodes);
        assert forall|i: int| 0 <= i < children.len() implies (#[trigger] all.nodes[i]).drawn() by {
            if i < children.len() - 1 {
                assert(all.nodes[i] == before.nodes[i]);
            }
        }
        assert forall|i: int| 0 <= i < children.len() && children[i].well_formed() implies (
        #[trigger] all.nodes[i]).well_formed() by {
            if i < children.len() - 1 {
                assert(all.nodes[i] == before.nodes[i]);
                assert(children.drop_last()[i] == children[i]);
            }
        }
    }
}

/// Drawing a list of nodes without appending leaves drawn trees, each well
/// formed if it was.
pub proof fn lemma_drawn_all_are_drawn(nodes: Seq<NodeView>, next: int)
    ensures
        drawn_all(nodes, next).nodes.len() == nodes.len(),
        forall|i: int| 0 <= i < nodes.len() ==> (#[trigger] drawn_all(nodes, next).nodes[i]).drawn(),
        forall|i: int|
            0 <= i < nodes.len() && nodes[i].well_formed() ==> (#[trigger] drawn_all(
                nodes,
                next,
            ).nodes[i]).well_formed(),
    decreases nodes,
{
    if nodes.len() > 0 {
        let before = drawn_all(nodes.drop_last(), next);
        lemma_drawn_all_are_drawn(nodes.drop_last(), next);
        lemma_drawn_is_drawn(nodes.last(), before.next);
        let all = drawn_all(nodes, next);
        assert forall|i: int| 0 <= i < nodes.len() implies (#[trigger] all.nodes[i]).drawn() by {
            if i < nodes.len() - 1 {
                assert(all.nodes[i] == before.nodes[i]);
            }
        }
        assert forall|i: int| 0 <= i < nodes.len() && nodes[i].well_formed() implies (
        #[trigger] all.nodes[i]).well_formed() by {
            if i < nodes.len() - 1 {
                assert(all.nodes[i] == before.nodes[i]);
                assert(nodes.drop_last()[i] == nodes[i]);
            }
        }
    }
}

/// Wiring keeps a drawn tree drawn and a well-formed tree well formed, and
/// keeps the handle of the root.
pub proof fn lemma_listened_is_drawn(widget: Seq<char>, tree: NodeView, next: int)
    ensures
        listened_node(widget, tree, next).node.handle() == tree.handle(),
        tree.drawn() ==> listened_node(widget, tree, next).node.drawn(),
        tree.well_formed() ==> listened_node(widget, tree, next).node.well_formed(),
    decreases tree,
{
    match tree {
        NodeView::Element(el) => {
            lemma_listened_children_are_drawn(widget, el.children, next + el.listeners.len());
            assert(keys(bound_listeners(el.listeners, next)) =~= keys(el.listeners));
        },
        _ => {},
    }
}

/// Wiring a list keeps drawn trees drawn and well-formed trees well formed.
pub proof fn lemma_listened_children_are_drawn(widget: Seq<char>, children: Seq<NodeView>, next: int)
    ensures
        listened_children(widget, children, next).nodes.len() == children.len(),
        forall|i: int|
            0 <= i < children.len() && children[i].drawn() ==> (#[trigger] listened_children(
                widget,
                children,
                next,
            ).nodes[i]).drawn(),
        forall|i: int|
            0 <= i < children.len() && children[i].well_formed() ==> (#[trigger] listened_children(
                widget,
                children,
                next,
            ).nodes[i]).well_formed(),
    decreases children,
{
    if children.len() > 0 {
        let before = listened_children(widget, children.drop_last(), next);
        lemma_listened_children_are_drawn(widget, children.drop_last(), next);
        lemma_listened_is_drawn(widget, children.last(), before.next);
        let all = listened_children(widget, children, next);
        assert forall|i: int| 0 <= i < children.len() && children[i].drawn() implies (
        #[trigger] all.nodes[i]).drawn() by {
            if i < children.len() - 1 {
                assert(all.nodes[i] == before.nodes[i]);
                assert(children.drop_last()[i] == children[i]);
            }
        }
        assert forall|i: int| 0 <= i < children.len() && children[i].well_formed() implies (
        #[trigger] all.nodes[i]).well_formed() by {
            if i < children.len() - 1 {
                assert(all.nodes[i] == before.nodes[i]);
                assert(children.drop_last()[i] == children[i]);
            }
        }
    }
}

/// Reconciling leaves the new tree drawn: every element and text of it
/// holds the handle of the object that it kept or that was drawn for it.
pub proof fn lemma_diffed_is_drawn(widget: Seq<char>, from: NodeView, to: NodeView, next: int)
    requires
        reconcilable(from, to),
    ensures
        diffed_node(widget, from, to, next).node.drawn(),
    decreases to, 0nat,
{
    match (from, to) {
        (NodeView::Element(f), NodeView::Element(t)) => {
            if f.tag != t.tag {
                lemma_drawn_is_drawn(to, next);
            } else {
                let handle = f.handle.unwrap();
                let children = diffed_children(widget, handle, f.children, t.children, next);
                let kept = if f.children.len() <= t.children.len() {
                    f.children.len()
                } else {
                    t.children.len()
                };
                let first = pairs_start(f.children, t.children, next);
                lemma_pairs_are_drawn(widget, f.children, t.children, kept, first);
                if f.children.len() < t.children.len() {
                    lemma_drawn_all_are_drawn(t.children.skip(f.children.len() as int), next);
                }
                lemma_diffed_pairs_next(widget, f.children, t.children, kept, first);
                assert forall|i: int| 0 <= i < children.nodes.len() implies (#[trigger] children.nodes[i]).drawn() by {
                    if i < kept {
                    } else {
                        let grown = drawn_all(t.children.skip(f.children.len() as int), next);
                        assert(children.nodes[i] == grown.nodes[i - kept]);
                    }
                }
            }
        },
        (NodeView::Text(_), NodeView::Text(_)) => {},
        (NodeView::Widget(_), NodeView::Widget(_)) => {},
        _ => {
            lemma_drawn_is_drawn(to, next);
        },
    }
}

/// Reconciling pairs that can be reconciled leaves drawn trees.
pub proof fn lemma_pairs_are_drawn(widget: Seq<char>, from: Seq<NodeView>, to: Seq<NodeView>, n: nat, next: int)
    requires
        n <= from.len(),
        n <= to.len(),
        forall|i: int| #![trigger to[i]] 0 <= i < from.len() && 0 <= i < to.len() ==> reconcilable(from[i], to[i]),
    ensures
        diffed_pairs(widget, from, to, n, next).nodes.len() == n,
        forall|i: int| 0 <= i < n ==> (#[trigger] diffed_pairs(widget, from, to, n, next).nodes[i]).drawn(),
    decreases to, n,
{
    if n > 0 {
        let before = diffed_pairs(widget, from, to, (n - 1) as nat, next);
        lemma_pairs_are_drawn(widget, from, to, (n - 1) as nat, next);
        assert(reconcilable(from[n - 1], to[n - 1]));
        lemma_diffed_is_drawn(widget, from[n - 1], to[n - 1], before.next);
        let all = diffed_pairs(widget, from, to, n, next);
        assert forall|i: int| 0 <= i < n implies (#[trigger] all.nodes[i]).drawn() by {
            if i < n - 1 {
                assert(all.nodes[i] == before.nodes[i]);
            }
        }
    }
}

/// Reconciling leaves a well-formed tree if the new tree was well formed.
pub proof fn lemma_diffed_is_well_formed(widget: Seq<char>, from: NodeView, to: NodeView, next: int)
    requires
        to.well_formed(),
    ensures
        diffed_node(widget, from, to, next).node.well_formed(),
    decreases to, 0nat,
{
    match (from, to) {
        (NodeView::Element(f), NodeView::Element(t)) => {
            if f.tag != t.tag {
                lemma_drawn_is_drawn(to, next);
            } else {
                let handle = f.handle.unwrap();
                let children = diffed_children(widget, handle, f.children, t.children, next);
                let kept = if f.children.len() <= t.children.len() {
                    f.children.len()
                } else {
                    t.children.len()
                };
                let first = pairs_start(f.children, t.children, next);
                lemma_pairs_are_well_formed(widget, f.children, t.children, kept, first);
                if f.children.len() < t.children.len() {
                    let tail = t.children.skip(f.children.len() as int);
                    assert forall|i: int| 0 <= i < tail.len() implies (#[trigger] tail[i]).well_formed() by {
                        assert(tail[i] == t.children[f.children.len() + i]);
                    }
                    lemma_drawn_all_are_drawn(tail, next);
                }
                assert forall|i: int| 0 <= i < children.nodes.len() implies (
                #[trigger] children.nodes[i]).well_formed() by {
                    if i >= kept {
                        let tail = t.children.skip(f.children.len() as int);
                        let grown = drawn_all(tail, next);
                        assert(children.nodes[i] == grown.nodes[i - kept]);
                    }
                }
                lemma_stale_listeners(widget, handle, f.listeners, t.listeners, children.next);
                let stale = stale_listeners(widget, handle, f.listeners, t.listeners, children.next);
                lemma_fresh_listeners(widget, handle, f.listeners, stale.listeners, stale.next);
                let rebound = diffed_listeners(widget, handle, f.listeners, t.listeners, children.next);
                assert(keys(rebound.listeners) =~= keys(t.listeners));
            }
        },
        (NodeView::Text(_), NodeView::Text(_)) => {},
        (NodeView::Widget(_), NodeView::Widget(_)) => {},
        _ => {
            lemma_drawn_is_drawn(to, next);
        },
    }
}

/// Reconciling pairs leaves well-formed trees where the new trees were
/// well formed.
pub proof fn lemma_pairs_are_well_formed(
    widget: Seq<char>,
    from: Seq<NodeView>,
    to: Seq<NodeView>,
    n: nat,
    next: int,
)
    requires
        n <= from.len(),
        n <= to.len(),
        forall|i: int| 0 <= i < to.len() ==> (#[trigger] to[i]).well_formed(),
    ensures
        diffed_pairs(widget, from, to, n, next).nodes.len() == n,
        forall|i: int| 0 <= i < n ==> (#[trigger] diffed_pairs(widget, from, to, n, next).nodes[i]).well_formed(),
    decreases to, n,
{
    if n > 0 {
        let before = diffed_pairs(widget, from, to, (n - 1) as nat, next);
        lemma_pairs_are_well_formed(widget, from, to, (n - 1) as nat, next);
        lemma_diffed_is_well_formed(widget, from[n - 1], to[n - 1], before.next);
        let all = diffed_pairs(widget, from, to, n, next);
        assert forall|i: int| 0 <= i < n implies (#[trigger] all.nodes[i]).well_formed() by {
            if i < n - 1 {
                assert(all.nodes[i] == before.nodes[i]);
            }
        }
    }
}

} // verus!
