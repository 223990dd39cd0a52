//! A retained virtual-tree UI runtime.
//!
//! Application state is rendered into a tree of [`nodes::node::Node`]s. The
//! tree is materialised on a display surface by [`draw`], and later versions
//! of it are reconciled against the previous one by [`diff`]. Every change to
//! the display is a [`surface::Patch`]: the runtime records patches on a
//! [`surface::Surface`], and the host that owns the real display applies
//! them in order.
//!
//! What drawing and reconciling record is stated in [`draw`] and [`diff`];
//! what follows of it for all trees is proved in [`laws`], and what the
//! patches make of a display in [`display`]. The mounted widgets are kept
//! in a [`nodes::Registry`].

pub mod action;
pub mod api;
pub mod diff;
pub mod display;
pub mod draw;
pub mod events;
pub mod example;
pub mod keyed;
pub mod laws;
pub mod nodes;
pub mod patch;
pub mod surface;
