use vstd::prelude::*;

pub mod camera;
pub mod color;
pub mod fixed;
pub mod object;
pub mod render;
pub mod vector;

verus! {

/// Why a configuration was rejected before any rendering work began.
#[derive(Clone, Copy, PartialEq, Eq, Structural, Debug)]
pub enum RenderError {
    /// A zero resolution, zero anti-aliasing factor, zero chunk count, or
    /// non-positive sphere radius: rendering would have to divide by it.
    InvalidConfiguration,
}

} // verus!

