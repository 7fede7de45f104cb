//! Plain data carried between the geometry core and a renderer or game
//! shell: window size, decoded texture data, and the marker component
//! for the player-controlled entity.

use vstd::prelude::*;

verus! {

/// Marker component for the entity driven by player input.
#[derive(Clone, Copy, Debug, PartialEq, Eq, Structural)]
pub struct PlayerBrain;

/// A render target size in pixels.
#[derive(Clone, Copy, Debug, PartialEq, Eq, Structural)]
pub struct Resolution {
    pub width: u32,
    pub height: u32,
}

impl Resolution {
    pub fn new(width: u32, height: u32) -> (r: Resolution)
        ensures
            r == (Resolution { width, height }),
    {
        Resolution { width, height }
    }
}

impl Default for Resolution {
    /// The default window size.
    fn default() -> (r: Self)
        ensures
            r == (Resolution { width: 1280u32, height: 720u32 }),
    {
        Resolution { width: 1280, height: 720 }
    }
}

/// Decoded image data: tightly packed RGB bytes and the image size.
#[derive(Clone, Debug)]
pub struct Texture {
    pub data: Vec<u8>,
    pub resolution: Resolution,
}

} // verus!
