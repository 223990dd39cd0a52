//! The entry point of a host, and the tags as functions.

use crate::nodes::element::{Element, ElementView};
use crate::nodes::widget::Widget;
use crate::surface::{Patch, PatchView, Surface};
use vstd::prelude::*;

verus! {

/// An undrawn element with the tag `tag` and nothing else.
pub open spec fn blank(tag: Seq<char>) -> ElementView {
    ElementView { tag, attrs: Seq::empty(), children: Seq::empty(), handle: None, listeners: Seq::empty() }
}

/// Mounts the root of the widget `w` under the root container that the host
/// supplies.
pub fn run(surface: &mut Surface, w: Widget)
    ensures
        final(surface)@ == old(surface)@.record(seq![PatchView::AttachToRoot { node: w@.handle }]),
{
    surface.record(Patch::AttachToRoot { node: w.dom_node });
}

/// A `div` element.
pub fn div() -> (element: Element)
    ensures
        element@ == blank("div"@),
{
    Element::new("div")
}

/// A `p` element.
pub fn p() -> (element: Element)
    ensures
        element@ == blank("p"@),
{
    Element::new("p")
}

/// An `h1` element.
pub fn h1() -> (element: Element)
    ensures
        element@ == blank("h1"@),
{
    Element::new("h1")
}

/// An `h2` element.
pub fn h2() -> (element: Element)
    ensures
        element@ == blank("h2"@),
{
    Element::new("h2")
}

/// An `h3` element.
pub fn h3() -> (element: Element)
    ensures
        element@ == blank("h3"@),
{
    Element::new("h3")
}

/// An `h4` element.
pub fn h4() -> (element: Element)
    ensures
        element@ == blank("h4"@),
{
    Element::new("h4")
}

/// An `h5` element.
pub fn h5() -> (element: Element)
    ensures
        element@ == blank("h5"@),
{
    Element::new("h5")
}

/// An `h6` element.
pub fn h6() -> (element: Element)
    ensures
        element@ == blank("h6"@),
{
    Element::new("h6")
}

/// An `h7` element.
pub fn h7() -> (element: Element)
    ensures
        element@ == blank("h7"@),
{
    Element::new("h7")
}

/// An `img` element.
pub fn img() -> (element: Element)
    ensures
        element@ == blank("img"@),
{
    Element::new("img")
}

/// An `a` element.
pub fn a() -> (element: Element)
    ensures
        element@ == blank("a"@),
{
    Element::new("a")
}

/// A `button` element.
pub fn button() -> (element: Element)
    ensures
        element@ == blank("button"@),
{
    Element::new("button")
}

/// An `input` element.
pub fn input() -> (element: Element)
    ensures
        element@ == blank("input"@),
{
    Element::new("input")
}

/// A `form` element.
pub fn form() -> (element: Element)
    ensures
        element@ == blank("form"@),
{
    Element::new("form")
}

/// An `object` element.
pub fn object() -> (element: Element)
    ensures
        element@ == blank("object"@),
{
    Element::new("object")
}

} // verus!
