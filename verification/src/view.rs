//! Rendering view modes.
use vstd::prelude::*;

verus! {

/// View mode for the rendering system.
#[derive(Debug, Clone, Copy, PartialEq, Eq, Structural)]
pub enum ViewMode {
    /// Traditional top-down orthographic 2D view.
    TopDown2D,
    /// Perspective 3D view with orbit camera.
    Perspective3D,
}

} // verus!
