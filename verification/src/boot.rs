//! Where a running program's webview goes.

use vstd::prelude::*;
use crate::protocol::same_text;

verus! {

/// The program body field that names a program's surface.
pub const SURFACE_KEY: &'static str = "surface";

/// The one word that puts a program in the overlay layer.
pub const OVERLAY_SURFACE: &'static str = "overlay";

/// Where a running program's webview goes.
#[derive(Debug, Clone, Copy, PartialEq, Eq, Structural)]
pub enum Surface {
    /// Into the geometry the rim walks: a tile leaf, or the strip.
    Tile,
    /// Over all of it, spanning the window.
    Overlay,
}

/// The surface a program body's `surface` field names, given as the string it
/// holds (`None` when the field is absent or not a string). Only the declared
/// word puts a program in the overlay layer; anything else is tile content.
pub fn surface_named(surface: Option<&str>) -> (s: Surface)
    ensures
        s == (if surface matches Some(word) && word@ == OVERLAY_SURFACE@ {
            Surface::Overlay
        } else {
            Surface::Tile
        }),
{
    match surface {
        Some(word) => if same_text(word, OVERLAY_SURFACE) {
            Surface::Overlay
        } else {
            Surface::Tile
        },
        None => Surface::Tile,
    }
}

} // verus!
