use vstd::prelude::*;

verus! {

/// Channels of a light that an animation may drive.
#[derive(Debug, Clone, Copy, Hash, PartialEq, Eq, Structural)]
pub enum LightChannel {
    /// The light's red, green and blue color.
    Color,
}

} // verus!
