//! The display surface as the runtime sees it: a source of fresh handles and
//! a log of the primitive mutations that the host still has to apply.

use crate::events::ListenerKind;
use vstd::prelude::*;

verus! {

/// Names one object of the display surface: a container, a text object or a
/// bound native callback.
pub type Handle = u64;

/// One primitive mutation of the display surface.
#[derive(Clone, Debug, PartialEq, Eq)]
pub enum Patch {
    /// Create a container with the given tag and call it `handle`.
    CreateElement { handle: Handle, tag: String },
    /// Create a text object holding `data` and call it `handle`.
    CreateText { handle: Handle, data: String },
    /// Put `by` where `node` stands under its parent.
    ReplaceNode { node: Handle, by: Handle },
    /// Set attribute `name` of `element` to `value`.
    SetAttribute { element: Handle, name: String, value: String },
    /// Remove attribute `name` from `element`.
    RemoveAttribute { element: Handle, name: String },
    /// Append `child` after the last child of `parent`.
    AppendChild { parent: Handle, child: Handle },
    /// Remove the last child of `parent`.
    RemoveLastChild { parent: Handle },
    /// Replace the data of the text object `text`.
    SetTextData { text: Handle, data: String },
    /// Bind a native callback for `event` on `element` and call it
    /// `callback`. When it fires, the message that `kind` produces is
    /// delivered to `widget`.
    AddListener { element: Handle, event: String, widget: String, kind: ListenerKind, callback: Handle },
    /// Unbind the native callback `callback` for `event` from `element`.
    RemoveListener { element: Handle, event: String, callback: Handle },
    /// Mount `node` under the root container that the host supplies.
    AttachToRoot { node: Handle },
}

/// The mathematical value of a [`Patch`].
pub enum PatchView {
    CreateElement { handle: Handle, tag: Seq<char> },
    CreateText { handle: Handle, data: Seq<char> },
    ReplaceNode { node: Handle, by: Handle },
    SetAttribute { element: Handle, name: Seq<char>, value: Seq<char> },
    RemoveAttribute { element: Handle, name: Seq<char> },
    AppendChild { parent: Handle, child: Handle },
    RemoveLastChild { parent: Handle },
    SetTextData { text: Handle, data: Seq<char> },
    AddListener { element: Handle, event: Seq<char>, widget: Seq<char>, kind: ListenerKind, callback: Handle },
    RemoveListener { element: Handle, event: Seq<char>, callback: Handle },
    AttachToRoot { node: Handle },
}

impl View for Patch {
    type V = PatchView;

    open spec fn view(&self) -> PatchView {
        match self {
            Patch::CreateElement { handle, tag } => PatchView::CreateElement { handle: *handle, tag: tag@ },
            Patch::CreateText { handle, data } => PatchView::CreateText { handle: *handle, data: data@ },
            Patch::ReplaceNode { node, by } => PatchView::ReplaceNode { node: *node, by: *by },
            Patch::SetAttribute { element, name, value } => PatchView::SetAttribute {
                element: *element,
                name: name@,
                value: value@,
            },
            Patch::RemoveAttribute { element, name } => PatchView::RemoveAttribute {
                element: *element,
                name: name@,
            },
            Patch::AppendChild { parent, child } => PatchView::AppendChild { parent: *parent, child: *child },
            Patch::RemoveLastChild { parent } => PatchView::RemoveLastChild { parent: *parent },
            Patch::SetTextData { text, data } => PatchView::SetTextData { text: *text, data: data@ },
            Patch::AddListener { element, event, widget, kind, callback } => PatchView::AddListener {
                element: *element,
                event: event@,
                widget: widget@,
                kind: *kind,
                callback: *callback,
            },
            Patch::RemoveListener { element, event, callback } => PatchView::RemoveListener {
                element: *element,
                event: event@,
                callback: *callback,
            },
            Patch::AttachToRoot { node } => PatchView::AttachToRoot { node: *node },
        }
    }
}

/// The mathematical value of a [`Surface`].
pub struct SurfaceView {
    /// The next handle that the surface gives out.
    pub next: int,
    /// The patches recorded and not yet taken, oldest first.
    pub pending: Seq<PatchView>,
}

impl SurfaceView {
    /// The surface after `patches` were recorded.
    pub open spec fn record(self, patches: Seq<PatchView>) -> SurfaceView {
        SurfaceView { next: self.next, pending: self.pending + patches }
    }

    /// The surface after `patches` were recorded and handles up to `next`
    /// were given out.
    pub open spec fn advance(self, patches: Seq<PatchView>, next: int) -> SurfaceView {
        SurfaceView { next, pending: self.pending + patches }
    }

    /// Whether `count` more handles can be given out.
    pub open spec fn has_room(self, count: nat) -> bool {
        self.next + count <= u64::MAX
    }
}

/// The runtime's end of the display surface.
pub struct Surface {
    next: Handle,
    pending: Vec<Patch>,
}

impl View for Surface {
    type V = SurfaceView;

    closed spec fn view(&self) -> SurfaceView {
        SurfaceView { next: self.next as int, pending: self.pending@.map_values(|p: Patch| p@) }
    }
}

impl Surface {
    /// A surface that has given out no handle and recorded no patch.
    pub fn new() -> (surface: Surface)
        ensures
            surface@ == (SurfaceView { next: 0, pending: Seq::empty() }),
    {
        let surface = Surface { next: 0, pending: Vec::new() };
        assert(surface@.pending =~= Seq::empty());
        surface
    }

    /// A surface that has recorded no patch and gives out `next` as its
    /// first handle, for a host that has named objects below it already.
    pub fn starting_at(next: Handle) -> (surface: Surface)
        ensures
            surface@ == (SurfaceView { next: next as int, pending: Seq::empty() }),
    {
        let surface = Surface { next, pending: Vec::new() };
        assert(surface@.pending =~= Seq::empty());
        surface
    }

    /// Every surface keeps its handles within the machine's range.
    pub proof fn lemma_next_in_range(&self)
        ensures
            0 <= self@.next <= u64::MAX,
    {
    }

    /// The next handle that the surface gives out.
    pub fn next_handle(&self) -> (next: Handle)
        ensures
            next == self@.next,
    {
        self.next
    }

    /// How many handles the surface can still give out.
    pub fn room(&self) -> (room: u64)
        ensures
            room == u64::MAX - self@.next,
    {
        u64::MAX - self.next
    }

    /// How many patches are recorded and not yet taken.
    pub fn pending_len(&self) -> (len: usize)
        ensures
            len == self@.pending.len(),
    {
        self.pending.len()
    }

    /// The recorded patch at position `index`, oldest first.
    pub fn pending(&self, index: usize) -> (patch: &Patch)
        requires
            index < self@.pending.len(),
        ensures
            patch@ == self@.pending[index as int],
    {
        &self.pending[index]
    }

    /// Hands the recorded patches to the host, oldest first, and clears the
    /// log. The handles given out so far stay given out.
    pub fn take_patches(&mut self) -> (patches: Vec<Patch>)
        ensures
            patches@.map_values(|p: Patch| p@) == old(self)@.pending,
            final(self)@ == (SurfaceView { next: old(self)@.next, pending: Seq::empty() }),
    {
        let mut patches: Vec<Patch> = Vec::new();
        core::mem::swap(&mut patches, &mut self.pending);
        assert(self@.pending =~= Seq::empty());
        patches
    }

    /// Gives out a fresh handle.
    pub fn allocate(&mut self) -> (handle: Handle)
        requires
            old(self)@.has_room(1),
        ensures
            handle == old(self)@.next,
            final(self)@ == old(self)@.advance(Seq::empty(), old(self)@.next + 1),
    {
        let handle = self.next;
        self.next = self.next + 1;
        assert(self@.pending =~= old(self)@.pending + Seq::<PatchView>::empty());
        handle
    }

    /// Records one patch.
    pub fn record(&mut self, patch: Patch)
        ensures
            final(self)@ == old(self)@.record(seq![patch@]),
    {
        self.pending.push(patch);
        assert(self@.pending =~= old(self)@.pending + seq![patch@]);
    }
}

} // verus!
