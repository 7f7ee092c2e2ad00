//! Rectangular blocks of text ("tiles") that can be named, stored in a
//! registry, referenced from other tiles with `@{name}` placeholders and
//! composed side by side or on top of each other.

use vstd::prelude::*;

pub mod align;
pub mod closure;
pub mod registry;
pub mod resolve;
pub mod scan;
pub mod text;
pub mod tile;

pub use align::append;
pub use registry::{
    clear_tiles, get_blank_tiles, get_raw_tile, remove_tile, set_raw_tiles, set_tiles, Registry,
};
pub use text::trim;
pub use tile::{MacroAttributeForK, MacroAttributeForT};

verus! {

/// A block of text lines with a trimming mode, and a name once registered.
#[derive(Debug, Clone, PartialEq)]
pub struct RTile {
    pub name: Option<String>,
    pub lns: Vec<String>,
    pub do_trimming: bool,
}

/// An item to join: a text, or a tile that stands for its rendered text.
#[derive(Debug, Clone, PartialEq)]
pub enum JoinItem {
    /// A text, cut into lines at each line break.
    Text(String),
    /// A tile, rendered first.
    Block(RTile),
}

/// The fatal conditions of rendering and scanning.
#[derive(Debug, Clone, Copy, PartialEq, Eq, Structural)]
pub enum TileError {
    /// A `@{` that no `}` closes on the same line.
    MalformedReference,
    /// A tile that refers to itself through the chain of tiles being resolved.
    RecursionDetected,
}

} // verus!
